//! The per-asset call auction: sort both sides, walk them in lockstep,
//! settle each crossing pair against the trader ledger, and record the
//! day's volume-average price.
//!
//! `match_rec` is the mathematical account of the walk; `match_asset`
//! returns exactly the state it describes, trade for trade, error for
//! error.

use vstd::arithmetic::div_mod::{
    lemma_div_is_ordered, lemma_div_multiples_vanish, lemma_div_pos_is_pos,
};
use vstd::prelude::*;

use crate::sorting::{sort_buy_orders, sort_buys_spec, sort_sell_orders, sort_sells_spec};
use crate::types::{
    ledger_model, lemma_ledger_model_update, lemma_portfolio_update, lemma_remove_insert,
    lemma_sum_cash_update, lemma_sum_shares_update, orders_nonneg, AssetMarket, MatchError, Order,
    OrderBook, Trader, TraderModel,
};

verus! {

/// The running state of one asset's matching walk: the ledger image, the
/// summed value of the trades settled so far, their count, and the error
/// that stopped the walk, if one did.
pub struct MatchState {
    pub ledger: Seq<TraderModel>,
    pub total_value: int,
    pub trades: int,
    pub err: Option<MatchError>,
}

/// The walk's state before any pair is examined.
pub open spec fn init_state(l: Seq<TraderModel>) -> MatchState {
    MatchState { ledger: l, total_value: 0, trades: 0, err: None }
}

/// The state frozen at a fatal error.
pub open spec fn fail_state(st: MatchState, e: MatchError) -> MatchState {
    MatchState { ledger: st.ledger, total_value: st.total_value, trades: st.trades, err: Some(e) }
}

/// A trade executes at the midpoint of the two limit prices, rounded down.
pub open spec fn trade_price(b: int, s: int) -> int {
    (b + s) / 2
}

/// One asset's matching walk over already-sorted order lists.
///
/// The head buy and head sell are examined: a quantity other than one, an
/// out-of-range trader index, a self-trade, a seller without a share, or a
/// settlement that would leave the representable cash or share range stops
/// the walk with the matching error; a head buy priced below the head sell
/// ends it normally. Otherwise one share moves from seller to buyer at the
/// midpoint price and the walk continues behind both heads.
pub open spec fn match_rec(buys: Seq<Order>, sells: Seq<Order>, asset: int, st: MatchState) -> MatchState
    decreases buys.len(),
{
    if st.err is Some || buys.len() == 0 || sells.len() == 0 {
        st
    } else {
        let b = buys[0];
        let s = sells[0];
        if b.qty != 1 || s.qty != 1 {
            fail_state(st, MatchError::UnsupportedQuantity)
        } else if b.price < s.price {
            st
        } else if b.trader >= st.ledger.len() || s.trader >= st.ledger.len() {
            fail_state(st, MatchError::UnknownTrader)
        } else if b.trader == s.trader {
            fail_state(st, MatchError::SelfTrade)
        } else {
            let tp = trade_price(b.price as int, s.price as int);
            let seller = st.ledger[s.trader as int];
            let buyer = st.ledger[b.trader as int];
            if seller.portfolio[asset] <= 0 {
                fail_state(st, MatchError::NoShares)
            } else if seller.cash + tp > i64::MAX || buyer.cash - tp < i64::MIN || buyer.portfolio[
                asset
            ] + 1 > u32::MAX {
                fail_state(st, MatchError::Overflow)
            } else {
                let l1 = st.ledger.update(
                    s.trader as int,
                    TraderModel {
                        cash: seller.cash + tp,
                        portfolio: seller.portfolio.update(asset, seller.portfolio[asset] - 1),
                    },
                );
                let l2 = l1.update(
                    b.trader as int,
                    TraderModel {
                        cash: buyer.cash - tp,
                        portfolio: buyer.portfolio.update(asset, buyer.portfolio[asset] + 1),
                    },
                );
                match_rec(
                    buys.drop_first(),
                    sells.drop_first(),
                    asset,
                    MatchState {
                        ledger: l2,
                        total_value: st.total_value + tp,
                        trades: st.trades + 1,
                        err: None,
                    },
                )
            }
        }
    }
}

/// The smaller of two sequence lengths.
pub open spec fn min_len(a: Seq<Order>, b: Seq<Order>) -> int {
    if a.len() <= b.len() {
        a.len() as int
    } else {
        b.len() as int
    }
}

/// Matching performs at most `min(|buys|, |sells|)` trade steps, and never
/// forgets one.
pub proof fn lemma_match_trades_bound(buys: Seq<Order>, sells: Seq<Order>, asset: int, st: MatchState)
    ensures
        st.trades <= match_rec(buys, sells, asset, st).trades,
        match_rec(buys, sells, asset, st).trades <= st.trades + min_len(buys, sells),
    decreases buys.len(),
{
    if !(st.err is Some || buys.len() == 0 || sells.len() == 0) {
        let b = buys[0];
        let s = sells[0];
        if b.qty != 1 || s.qty != 1 {
        } else if b.price < s.price {
        } else if b.trader >= st.ledger.len() || s.trader >= st.ledger.len() {
        } else if b.trader == s.trader {
        } else {
            let seller = st.ledger[s.trader as int];
            let buyer = st.ledger[b.trader as int];
            let tp = trade_price(b.price as int, s.price as int);
            if seller.portfolio[asset] <= 0 {
            } else if seller.cash + tp > i64::MAX || buyer.cash - tp < i64::MIN
                || buyer.portfolio[asset] + 1 > u32::MAX {
            } else {
                let l1 = st.ledger.update(
                    s.trader as int,
                    TraderModel {
                        cash: seller.cash + tp,
                        portfolio: seller.portfolio.update(asset, seller.portfolio[asset] - 1),
                    },
                );
                let l2 = l1.update(
                    b.trader as int,
                    TraderModel {
                        cash: buyer.cash - tp,
                        portfolio: buyer.portfolio.update(asset, buyer.portfolio[asset] + 1),
                    },
                );
                lemma_match_trades_bound(
                    buys.drop_first(),
                    sells.drop_first(),
                    asset,
                    MatchState {
                        ledger: l2,
                        total_value: st.total_value + tp,
                        trades: st.trades + 1,
                        err: None,
                    },
                );
            }
        }
    }
}

/// Settlement moves cash and shares but never creates or destroys them:
/// the cash total and every asset's share total are unchanged by the walk,
/// whether it completes or stops on an error, and holdings of other assets
/// are untouched trader by trader.
pub proof fn lemma_match_conserves(
    buys: Seq<Order>,
    sells: Seq<Order>,
    asset: int,
    st: MatchState,
    plen: int,
)
    requires
        forall|i: int| 0 <= i < st.ledger.len() ==> (#[trigger] st.ledger[i]).portfolio.len() == plen,
        0 <= asset < plen,
    ensures
        ({
            let out = match_rec(buys, sells, asset, st);
            &&& out.ledger.len() == st.ledger.len()
            &&& forall|i: int|
                0 <= i < out.ledger.len() ==> (#[trigger] out.ledger[i]).portfolio.len() == plen
            &&& crate::types::sum_cash(out.ledger) == crate::types::sum_cash(st.ledger)
            &&& forall|a: int|
                0 <= a < plen ==> #[trigger] crate::types::sum_shares(out.ledger, a)
                    == crate::types::sum_shares(st.ledger, a)
            &&& forall|i: int, a: int|
                0 <= i < out.ledger.len() && 0 <= a < plen && a != asset
                    ==> #[trigger] out.ledger[i].portfolio[a] == st.ledger[i].portfolio[a]
        }),
    decreases buys.len(),
{
    if !(st.err is Some || buys.len() == 0 || sells.len() == 0) {
        let b = buys[0];
        let s = sells[0];
        if b.qty != 1 || s.qty != 1 {
        } else if b.price < s.price {
        } else if b.trader >= st.ledger.len() || s.trader >= st.ledger.len() {
        } else if b.trader == s.trader {
        } else {
            let seller = st.ledger[s.trader as int];
            let buyer = st.ledger[b.trader as int];
            let tp = trade_price(b.price as int, s.price as int);
            if seller.portfolio[asset] <= 0 {
            } else if seller.cash + tp > i64::MAX || buyer.cash - tp < i64::MIN
                || buyer.portfolio[asset] + 1 > u32::MAX {
            } else {
                let si = s.trader as int;
                let bi = b.trader as int;
                let seller1 = TraderModel {
                    cash: seller.cash + tp,
                    portfolio: seller.portfolio.update(asset, seller.portfolio[asset] - 1),
                };
                let buyer1 = TraderModel {
                    cash: buyer.cash - tp,
                    portfolio: buyer.portfolio.update(asset, buyer.portfolio[asset] + 1),
                };
                let l1 = st.ledger.update(si, seller1);
                let l2 = l1.update(bi, buyer1);
                let st1 = MatchState {
                    ledger: l2,
                    total_value: st.total_value + tp,
                    trades: st.trades + 1,
                    err: None,
                };
                lemma_sum_cash_update(st.ledger, si, seller1);
                lemma_sum_cash_update(l1, bi, buyer1);
                assert(l1[bi] == buyer);
                assert forall|a: int| 0 <= a < plen implies #[trigger] crate::types::sum_shares(
                    l2,
                    a,
                ) == crate::types::sum_shares(st.ledger, a) by {
                    lemma_sum_shares_update(st.ledger, si, seller1, a);
                    lemma_sum_shares_update(l1, bi, buyer1, a);
                }
                lemma_match_conserves(buys.drop_first(), sells.drop_first(), asset, st1, plen);
            }
        }
    }
}

/// A hygienic book side against a ledger: single-unit orders with
/// non-negative prices and in-range trader indices.
pub open spec fn side_ok(s: Seq<Order>, n: int) -> bool {
    forall|i: int|
        0 <= i < s.len() ==> (#[trigger] s[i]).qty == 1 && s[i].price >= 0 && s[i].trader < n
}

/// No trader appears twice within a side, nor on both sides.
pub open spec fn sides_exclusive(buys: Seq<Order>, sells: Seq<Order>) -> bool {
    &&& forall|i: int, j: int|
        0 <= i < j < buys.len() ==> (#[trigger] buys[i]).trader != (#[trigger] buys[j]).trader
    &&& forall|i: int, j: int|
        0 <= i < j < sells.len() ==> (#[trigger] sells[i]).trader != (#[trigger] sells[j]).trader
    &&& forall|i: int, j: int|
        0 <= i < buys.len() && 0 <= j < sells.len() ==> (#[trigger] buys[i]).trader != (
        #[trigger] sells[j]).trader
}

/// Two distinct traders' holdings both fit under the asset's share total.
proof fn lemma_two_shares_le_sum(l: Seq<TraderModel>, asset: int, i: int, j: int, plen: int)
    requires
        0 <= i < l.len(),
        0 <= j < l.len(),
        i != j,
        0 <= asset < plen,
        forall|k: int| 0 <= k < l.len() ==> (#[trigger] l[k]).portfolio.len() == plen,
        forall|k: int| 0 <= k < l.len() ==> #[trigger] l[k].portfolio[asset] >= 0,
    ensures
        l[i].portfolio[asset] + l[j].portfolio[asset] <= crate::types::sum_shares(l, asset),
{
    let zi = TraderModel { cash: l[i].cash, portfolio: l[i].portfolio.update(asset, 0) };
    let lz = l.update(i, zi);
    crate::types::lemma_sum_shares_update(l, i, zi, asset);
    assert(forall|k: int| 0 <= k < lz.len() ==> #[trigger] lz[k].portfolio[asset] >= 0);
    crate::types::lemma_share_le_sum(lz, asset, j);
    assert(lz[j] == l[j]);
}

/// From a hygienic, exclusive book whose sellers each hold a share and
/// whose asset's share total is representable, the matching walk never
/// stops on a quantity, trader or share fault: it either completes or
/// stops because a settlement would leave the representable cash range.
pub proof fn lemma_match_fails_only_on_overflow(
    buys: Seq<Order>,
    sells: Seq<Order>,
    asset: int,
    st: MatchState,
    plen: int,
)
    requires
        st.err is None,
        0 <= asset < plen,
        forall|i: int| 0 <= i < st.ledger.len() ==> (#[trigger] st.ledger[i]).portfolio.len() == plen,
        forall|i: int| 0 <= i < st.ledger.len() ==> #[trigger] st.ledger[i].portfolio[asset] >= 0,
        crate::types::sum_shares(st.ledger, asset) <= u32::MAX,
        side_ok(buys, st.ledger.len() as int),
        side_ok(sells, st.ledger.len() as int),
        sides_exclusive(buys, sells),
        forall|k: int|
            0 <= k < sells.len() ==> #[trigger] st.ledger[sells[k].trader as int].portfolio[asset]
                >= 1,
    ensures
        match_rec(buys, sells, asset, st).err is None || match_rec(buys, sells, asset, st).err
            == Some(MatchError::Overflow),
    decreases buys.len(),
{
    if buys.len() == 0 || sells.len() == 0 {
    } else {
        let b = buys[0];
        let s = sells[0];
        assert(b.qty == 1 && s.qty == 1);
        if b.price < s.price {
        } else {
            assert(b.trader != s.trader);
            let si = s.trader as int;
            let bi = b.trader as int;
            let seller = st.ledger[si];
            let buyer = st.ledger[bi];
            let tp = trade_price(b.price as int, s.price as int);
            assert(seller.portfolio[asset] >= 1);
            lemma_two_shares_le_sum(st.ledger, asset, si, bi, plen);
            assert(buyer.portfolio[asset] + 1 <= u32::MAX);
            if seller.cash + tp > i64::MAX || buyer.cash - tp < i64::MIN {
            } else {
                let seller1 = TraderModel {
                    cash: seller.cash + tp,
                    portfolio: seller.portfolio.update(asset, seller.portfolio[asset] - 1),
                };
                let buyer1 = TraderModel {
                    cash: buyer.cash - tp,
                    portfolio: buyer.portfolio.update(asset, buyer.portfolio[asset] + 1),
                };
                let l1 = st.ledger.update(si, seller1);
                let l2 = l1.update(bi, buyer1);
                let st1 = MatchState {
                    ledger: l2,
                    total_value: st.total_value + tp,
                    trades: st.trades + 1,
                    err: None,
                };
                let tb = buys.drop_first();
                let ts = sells.drop_first();
                assert(forall|i: int| 0 <= i < tb.len() ==> #[trigger] tb[i] == buys[i + 1]);
                assert(forall|i: int| 0 <= i < ts.len() ==> #[trigger] ts[i] == sells[i + 1]);
                crate::types::lemma_sum_shares_update(st.ledger, si, seller1, asset);
                crate::types::lemma_sum_shares_update(l1, bi, buyer1, asset);
                assert(l1[bi] == buyer);
                assert(crate::types::sum_shares(l2, asset) == crate::types::sum_shares(
                    st.ledger,
                    asset,
                ));
                assert forall|k: int|
                    0 <= k < ts.len() implies #[trigger] l2[ts[k].trader as int].portfolio[asset]
                    >= 1 by {
                    assert(ts[k] == sells[k + 1]);
                    assert(sells[k + 1].trader != s.trader);
                    assert(sells[k + 1].trader != b.trader);
                    assert(l2[ts[k].trader as int] == st.ledger[ts[k].trader as int]);
                }
                lemma_match_fails_only_on_overflow(tb, ts, asset, st1, plen);
            }
        }
    }
}

/// The walk's state as mirrored by the executable loop.
spec fn cur_state(l: Seq<Trader>, total: int, k: int) -> MatchState {
    MatchState { ledger: ledger_model(l), total_value: total, trades: k, err: None }
}

/// Returns a copy of an order list, element for element.
fn copy_orders(v: &Vec<Order>) -> (r: Vec<Order>)
    ensures
        r@ == v@,
{
    let r = v.clone();
    proof {
        assert(r@ =~= v@);
    }
    r
}

/// Executes the call auction and settlement for one asset, in place.
///
/// Both book sides are sorted stably by price, then matched and settled
/// exactly as `match_rec` describes, starting from the current ledger. On
/// success the market records the day's trade count, the volume-average
/// price (unchanged when no trade happened), and the full sorted lists for
/// reporting; its history is untouched. On an error the market is left
/// unchanged and the ledger holds every trade settled before the error.
pub fn match_asset(
    traders: &mut Vec<Trader>,
    market: &mut AssetMarket,
    book: &mut OrderBook,
    asset_id: usize,
) -> (r: Result<(), MatchError>)
    requires
        forall|i: int|
            0 <= i < old(traders)@.len() ==> (#[trigger] old(traders)@[i]).portfolio@.len()
                > asset_id,
        orders_nonneg(old(book).buy_orders@),
        orders_nonneg(old(book).sell_orders@),
        old(book).buy_orders@.len() <= u32::MAX || old(book).sell_orders@.len() <= u32::MAX,
        old(market).last_price >= 0,
    ensures
        ({
            let sb = sort_buys_spec(old(book).buy_orders@);
            let ss = sort_sells_spec(old(book).sell_orders@);
            let out = match_rec(sb, ss, asset_id as int, init_state(ledger_model(old(traders)@)));
            &&& final(book).buy_orders@ == sb
            &&& final(book).sell_orders@ == ss
            &&& ledger_model(final(traders)@) == out.ledger
            &&& final(traders)@.len() == old(traders)@.len()
            &&& forall|i: int|
                0 <= i < final(traders)@.len() ==> (#[trigger] final(traders)@[i]).portfolio@.len()
                    == old(traders)@[i].portfolio@.len()
            &&& match r {
                Ok(()) => {
                    &&& out.err is None
                    &&& final(market).trades_last_day == out.trades
                    &&& out.trades <= min_len(sb, ss)
                    &&& final(market).last_price == (if out.trades > 0 {
                        out.total_value / out.trades
                    } else {
                        old(market).last_price as int
                    })
                    &&& final(market).last_price >= 0
                    &&& (out.trades == 0 ==> final(market).last_price == old(market).last_price)
                    &&& final(market).buy_orders_last_day@ == sb
                    &&& final(market).sell_orders_last_day@ == ss
                    &&& final(market).history == old(market).history
                    &&& final(market).symbol == old(market).symbol
                    &&& final(market).company_type == old(market).company_type
                    &&& final(market).color == old(market).color
                },
                Err(e) => {
                    &&& out.err == Some(e)
                    &&& *final(market) == *old(market)
                },
            }
        }),
{
    let ghost l0 = ledger_model(old(traders)@);
    sort_buy_orders(&mut book.buy_orders);
    sort_sell_orders(&mut book.sell_orders);
    let ghost sb = book.buy_orders@;
    let ghost ss = book.sell_orders@;
    proof {
        assert(orders_nonneg(sb)) by {
            crate::sorting::lemma_sort_buys_spec(old(book).buy_orders@);
            assert forall|i: int| 0 <= i < sb.len() implies (#[trigger] sb[i]).price >= 0 by {
                sb.to_multiset_ensures();
                old(book).buy_orders@.to_multiset_ensures();
                assert(sb.to_multiset().count(sb[i]) > 0);
                assert(old(book).buy_orders@.contains(sb[i]));
            }
        }
        assert(orders_nonneg(ss)) by {
            crate::sorting::lemma_sort_sells_spec(old(book).sell_orders@);
            assert forall|i: int| 0 <= i < ss.len() implies (#[trigger] ss[i]).price >= 0 by {
                ss.to_multiset_ensures();
                old(book).sell_orders@.to_multiset_ensures();
                assert(ss.to_multiset().count(ss[i]) > 0);
                assert(old(book).sell_orders@.contains(ss[i]));
            }
        }
    }
    let ghost out = match_rec(sb, ss, asset_id as int, init_state(l0));
    let n_buys = book.buy_orders.len();
    let n_sells = book.sell_orders.len();
    let mut k: usize = 0;
    let mut total: u128 = 0;
    let mut done = false;
    proof {
        assert(sb.skip(0) =~= sb);
        assert(ss.skip(0) =~= ss);
    }
    while k < n_buys && k < n_sells && !done
        invariant
            sb == sort_buys_spec(old(book).buy_orders@),
            ss == sort_sells_spec(old(book).sell_orders@),
            l0 == ledger_model(old(traders)@),
            out == match_rec(sb, ss, asset_id as int, init_state(l0)),
            *market == *old(market),
            n_buys == sb.len(),
            n_sells == ss.len(),
            n_buys <= u32::MAX || n_sells <= u32::MAX,
            book.buy_orders@ == sb,
            book.sell_orders@ == ss,
            orders_nonneg(sb),
            orders_nonneg(ss),
            k <= n_buys,
            k <= n_sells,
            traders@.len() == old(traders)@.len(),
            forall|i: int|
                0 <= i < traders@.len() ==> (#[trigger] traders@[i]).portfolio@.len()
                    == old(traders)@[i].portfolio@.len(),
            forall|i: int|
                0 <= i < traders@.len() ==> (#[trigger] traders@[i]).portfolio@.len() > asset_id,
            total as int <= (k as int) * (i64::MAX as int),
            out == match_rec(
                sb.skip(k as int),
                ss.skip(k as int),
                asset_id as int,
                cur_state(traders@, total as int, k as int),
            ),
            done ==> match_rec(
                sb.skip(k as int),
                ss.skip(k as int),
                asset_id as int,
                cur_state(traders@, total as int, k as int),
            ) == cur_state(traders@, total as int, k as int),
        decreases n_buys - k + (if done { 0int } else { 1int }),
    {
        let ghost cur0 = cur_state(traders@, total as int, k as int);
        let ghost k0 = k as int;
        let b_ord = book.buy_orders[k];
        let s_ord = book.sell_orders[k];
        proof {
            assert(sb.skip(k0)[0] == sb[k0]);
            assert(ss.skip(k0)[0] == ss[k0]);
            assert(sb.skip(k0).len() > 0);
            assert(ss.skip(k0).len() > 0);
        }
        if b_ord.qty != 1 || s_ord.qty != 1 {
            proof {
                assert(out == fail_state(cur0, MatchError::UnsupportedQuantity));
            }
            return Err(MatchError::UnsupportedQuantity);
        }
        if b_ord.price < s_ord.price {
            done = true;
        } else {
            if b_ord.trader >= traders.len() || s_ord.trader >= traders.len() {
                proof {
                    assert(out == fail_state(cur0, MatchError::UnknownTrader));
                }
                return Err(MatchError::UnknownTrader);
            }
            if b_ord.trader == s_ord.trader {
                proof {
                    assert(out == fail_state(cur0, MatchError::SelfTrade));
                }
                return Err(MatchError::SelfTrade);
            }
            let tp_w: u128 = (b_ord.price as u128) + (s_ord.price as u128);
            proof {
                assert((i64::MAX as u128 as int) * 2 == (i64::MAX as int) * 2);
                lemma_div_is_ordered(tp_w as int, (i64::MAX as int) * 2, 2);
                lemma_div_multiples_vanish(i64::MAX as int, 2);
                lemma_div_pos_is_pos(tp_w as int, 2);
            }
            let tp: i64 = (tp_w / 2) as i64;
            let s_id = s_ord.trader;
            let b_id = b_ord.trader;
            let ghost tps = trade_price(b_ord.price as int, s_ord.price as int);
            proof {
                assert(tp as int == tps);
            }
            let s_sh = traders[s_id].portfolio[asset_id];
            if s_sh == 0 {
                proof {
                    assert(ledger_model(traders@)[s_id as int].portfolio[asset_id as int]
                        == s_sh as int);
                    assert(out == fail_state(cur0, MatchError::NoShares));
                }
                return Err(MatchError::NoShares);
            }
            let s_cash = traders[s_id].cash;
            let b_cash = traders[b_id].cash;
            let b_sh = traders[b_id].portfolio[asset_id];
            proof {
                assert(ledger_model(traders@)[s_id as int].cash == s_cash as int);
                assert(ledger_model(traders@)[b_id as int].cash == b_cash as int);
                assert(ledger_model(traders@)[b_id as int].portfolio[asset_id as int]
                    == b_sh as int);
                assert(ledger_model(traders@)[s_id as int].portfolio[asset_id as int]
                    == s_sh as int);
            }
            let new_s_cash = match s_cash.checked_add(tp) {
                Some(c) => c,
                None => {
                    proof {
                        assert(out == fail_state(cur0, MatchError::Overflow));
                    }
                    return Err(MatchError::Overflow);
                },
            };
            let new_b_cash = match b_cash.checked_sub(tp) {
                Some(c) => c,
                None => {
                    proof {
                        assert(out == fail_state(cur0, MatchError::Overflow));
                    }
                    return Err(MatchError::Overflow);
                },
            };
            if b_sh == u32::MAX {
                proof {
                    assert(out == fail_state(cur0, MatchError::Overflow));
                }
                return Err(MatchError::Overflow);
            }
            let ghost pre = traders@;
            let mut seller = traders.remove(s_id);
            seller.cash = new_s_cash;
            seller.portfolio.set(asset_id, s_sh - 1);
            traders.insert(s_id, seller);
            proof {
                lemma_remove_insert(pre, s_id as int, seller);
                lemma_ledger_model_update(pre, s_id as int, seller);
                lemma_portfolio_update(pre[s_id as int].portfolio@, asset_id as int, (s_sh - 1) as u32);
            }
            let ghost mid = traders@;
            let mut buyer = traders.remove(b_id);
            buyer.cash = new_b_cash;
            buyer.portfolio.set(asset_id, b_sh + 1);
            traders.insert(b_id, buyer);
            proof {
                lemma_remove_insert(mid, b_id as int, buyer);
                lemma_ledger_model_update(mid, b_id as int, buyer);
                lemma_portfolio_update(mid[b_id as int].portfolio@, asset_id as int, (b_sh + 1) as u32);
            }
            total = total + (tp as u128);
            k = k + 1;
            proof {
                let cur1 = cur_state(traders@, total as int, k as int);
                let seller0 = cur0.ledger[s_id as int];
                let buyer0 = cur0.ledger[b_id as int];
                let seller1 = TraderModel {
                    cash: seller0.cash + tps,
                    portfolio: seller0.portfolio.update(
                        asset_id as int,
                        seller0.portfolio[asset_id as int] - 1,
                    ),
                };
                let buyer1 = TraderModel {
                    cash: buyer0.cash - tps,
                    portfolio: buyer0.portfolio.update(
                        asset_id as int,
                        buyer0.portfolio[asset_id as int] + 1,
                    ),
                };
                assert(crate::types::trader_model(seller) == seller1);
                assert(ledger_model(traders@) == cur0.ledger.update(s_id as int, seller1).update(
                    b_id as int,
                    buyer1,
                ));
                assert(sb.skip(k0).drop_first() =~= sb.skip(k0 + 1));
                assert(ss.skip(k0).drop_first() =~= ss.skip(k0 + 1));
                assert(out == match_rec(
                    sb.skip(k as int),
                    ss.skip(k as int),
                    asset_id as int,
                    cur1,
                ));
            }
        }
    }
    proof {
        let cur = cur_state(traders@, total as int, k as int);
        if k >= n_buys || k >= n_sells {
            assert(sb.skip(k as int).len() == 0 || ss.skip(k as int).len() == 0);
        }
        assert(out == cur);
        lemma_match_trades_bound(sb, ss, asset_id as int, init_state(l0));
    }
    market.trades_last_day = k as u32;
    if k > 0 {
        proof {
            lemma_div_is_ordered(total as int, (k as int) * (i64::MAX as int), k as int);
            lemma_div_multiples_vanish(i64::MAX as int, k as int);
            lemma_div_pos_is_pos(total as int, k as int);
        }
        let avg: u128 = total / (k as u128);
        market.last_price = avg as i64;
    }
    market.buy_orders_last_day = copy_orders(&book.buy_orders);
    market.sell_orders_last_day = copy_orders(&book.sell_orders);
    Ok(())
}


} // verus!
