//! Daily intent generation: per trader and asset, a ternary choice (hold,
//! sell, buy) and a price offset decide whether an order enters the book.
//!
//! The choice and the offset are inputs here; drawing them is the caller's
//! affair. A buy is kept only if its price is representable, non-negative
//! and affordable against the trader's cash at the start of the day; a sell
//! additionally needs the trader to hold a share. Quantities are always 1.

use vstd::prelude::*;

use crate::types::{ledger_model, AssetMarket, Order, OrderBook, Trader, TraderModel};

verus! {

/// A buy at `lp + nz` is kept: representable, non-negative, and within the
/// trader's cash at the start of the day.
pub open spec fn buy_accepted(lp: int, nz: int, cash: int) -> bool {
    &&& 0 <= lp + nz
    &&& lp + nz <= i64::MAX
    &&& lp + nz <= cash
}

/// A sell at `lp + nz` is kept: representable, non-negative, and backed by
/// at least one share.
pub open spec fn sell_accepted(lp: int, nz: int, shares: int) -> bool {
    &&& shares > 0
    &&& 0 <= lp + nz
    &&& lp + nz <= i64::MAX
}

/// The buy list for one asset after the first `t` traders decided, in
/// trader order. Trader `i` consults choice and noise entry `base + i`;
/// choice 2 means buy.
pub open spec fn gen_buys(
    l: Seq<TraderModel>,
    lp: int,
    ch: Seq<u32>,
    nz: Seq<i64>,
    base: int,
    t: int,
) -> Seq<Order>
    decreases t,
{
    if t <= 0 {
        Seq::empty()
    } else {
        let pre = gen_buys(l, lp, ch, nz, base, t - 1);
        let i = t - 1;
        if ch[base + i] == 2 && buy_accepted(lp, nz[base + i] as int, l[i].cash) {
            pre.push(Order { trader: i as usize, price: (lp + nz[base + i]) as i64, qty: 1 })
        } else {
            pre
        }
    }
}

/// The sell list for one asset after the first `t` traders decided, in
/// trader order; choice 1 means sell.
pub open spec fn gen_sells(
    l: Seq<TraderModel>,
    a: int,
    lp: int,
    ch: Seq<u32>,
    nz: Seq<i64>,
    base: int,
    t: int,
) -> Seq<Order>
    decreases t,
{
    if t <= 0 {
        Seq::empty()
    } else {
        let pre = gen_sells(l, a, lp, ch, nz, base, t - 1);
        let i = t - 1;
        if ch[base + i] == 1 && sell_accepted(lp, nz[base + i] as int, l[i].portfolio[a]) {
            pre.push(Order { trader: i as usize, price: (lp + nz[base + i]) as i64, qty: 1 })
        } else {
            pre
        }
    }
}

/// Order exclusivity and order hygiene of one asset's generated book: each
/// trader appears at most once across both lists (never on both sides),
/// orders arrive in trader order with quantity 1, prices are representable
/// and non-negative, buys are affordable against day-start cash, and sells
/// are backed by a day-start share.
pub proof fn lemma_gen_exclusive(
    l: Seq<TraderModel>,
    a: int,
    lp: int,
    ch: Seq<u32>,
    nz: Seq<i64>,
    base: int,
    t: int,
)
    requires
        0 <= t <= usize::MAX,
    ensures
        ({
            let bs = gen_buys(l, lp, ch, nz, base, t);
            let ss = gen_sells(l, a, lp, ch, nz, base, t);
            &&& bs.len() <= t
            &&& ss.len() <= t
            &&& forall|i: int|
                0 <= i < bs.len() ==> (#[trigger] bs[i]).trader < t && bs[i].qty == 1 && 0 <= bs[
                    i
                ].price && bs[i].price <= l[bs[i].trader as int].cash && ch[base + bs[
                    i
                ].trader] == 2
            &&& forall|i: int|
                0 <= i < ss.len() ==> (#[trigger] ss[i]).trader < t && ss[i].qty == 1 && 0 <= ss[
                    i
                ].price && l[ss[i].trader as int].portfolio[a] > 0 && ch[base + ss[
                    i
                ].trader] == 1
            &&& forall|i: int, j: int|
                0 <= i < j < bs.len() ==> (#[trigger] bs[i]).trader < (#[trigger] bs[j]).trader
            &&& forall|i: int, j: int|
                0 <= i < j < ss.len() ==> (#[trigger] ss[i]).trader < (#[trigger] ss[j]).trader
            &&& forall|i: int, j: int|
                0 <= i < bs.len() && 0 <= j < ss.len() ==> (#[trigger] bs[i]).trader != (
                #[trigger] ss[j]).trader
        }),
    decreases t,
{
    if t > 0 {
        lemma_gen_exclusive(l, a, lp, ch, nz, base, t - 1);
        let bs0 = gen_buys(l, lp, ch, nz, base, t - 1);
        let ss0 = gen_sells(l, a, lp, ch, nz, base, t - 1);
        let bs = gen_buys(l, lp, ch, nz, base, t);
        let ss = gen_sells(l, a, lp, ch, nz, base, t);
        let i = t - 1;
        if ch[base + i] == 2 && buy_accepted(lp, nz[base + i] as int, l[i].cash) {
            let o = Order { trader: i as usize, price: (lp + nz[base + i]) as i64, qty: 1 };
            assert(bs == bs0.push(o));
            assert(forall|j: int| 0 <= j < bs0.len() ==> bs[j] == #[trigger] bs0[j]);
            assert(bs[bs.len() - 1] == o);
        } else {
            assert(bs == bs0);
        }
        if ch[base + i] == 1 && sell_accepted(lp, nz[base + i] as int, l[i].portfolio[a]) {
            let o = Order { trader: i as usize, price: (lp + nz[base + i]) as i64, qty: 1 };
            assert(ss == ss0.push(o));
            assert(forall|j: int| 0 <= j < ss0.len() ==> ss[j] == #[trigger] ss0[j]);
            assert(ss[ss.len() - 1] == o);
        } else {
            assert(ss == ss0);
        }
    }
}

/// Fills every asset's order book from the given choices and noise draws,
/// read at index `asset * traders.len() + trader`.
///
/// Books are rebuilt from scratch: each ends up holding exactly the
/// generated buy and sell lists for its asset, judged against every
/// trader's day-start cash and holdings.
pub fn create_orders_into(
    traders: &Vec<Trader>,
    markets: &Vec<AssetMarket>,
    books: &mut Vec<OrderBook>,
    choices: &Vec<u32>,
    noise: &Vec<i64>,
)
    requires
        old(books)@.len() == markets@.len(),
        choices@.len() == markets@.len() * traders@.len(),
        noise@.len() == markets@.len() * traders@.len(),
        markets@.len() * traders@.len() <= usize::MAX,
        forall|a: int| 0 <= a < markets@.len() ==> (#[trigger] markets@[a]).last_price >= 0,
        forall|i: int|
            0 <= i < traders@.len() ==> (#[trigger] traders@[i]).portfolio@.len() == markets@.len(),
    ensures
        final(books)@.len() == markets@.len(),
        forall|a: int|
            0 <= a < markets@.len() ==> {
                let t_n = traders@.len() as int;
                (#[trigger] final(books)@[a]).buy_orders@ == gen_buys(
                    ledger_model(traders@),
                    markets@[a].last_price as int,
                    choices@,
                    noise@,
                    a * t_n,
                    t_n,
                ) && final(books)@[a].sell_orders@ == gen_sells(
                    ledger_model(traders@),
                    a,
                    markets@[a].last_price as int,
                    choices@,
                    noise@,
                    a * t_n,
                    t_n,
                )
            },
{
    let n_assets = markets.len();
    let n_traders = traders.len();
    let ghost l = ledger_model(traders@);
    let ghost t_n = traders@.len() as int;
    for a in 0..n_assets
        invariant
            n_assets == markets@.len(),
            n_traders == traders@.len(),
            t_n == traders@.len() as int,
            l == ledger_model(traders@),
            books@.len() == markets@.len(),
            choices@.len() == markets@.len() * traders@.len(),
            noise@.len() == markets@.len() * traders@.len(),
            markets@.len() * traders@.len() <= usize::MAX,
            forall|x: int| 0 <= x < markets@.len() ==> (#[trigger] markets@[x]).last_price >= 0,
            forall|i: int|
                0 <= i < traders@.len() ==> (#[trigger] traders@[i]).portfolio@.len()
                    == markets@.len(),
            forall|x: int|
                0 <= x < a ==> (#[trigger] books@[x]).buy_orders@ == gen_buys(
                    l,
                    markets@[x].last_price as int,
                    choices@,
                    noise@,
                    x * t_n,
                    t_n,
                ) && books@[x].sell_orders@ == gen_sells(
                    l,
                    x,
                    markets@[x].last_price as int,
                    choices@,
                    noise@,
                    x * t_n,
                    t_n,
                ),
    {
        proof {
            assert((a as int) * t_n >= 0 && (a as int) * t_n + t_n <= (n_assets as int) * t_n)
                by (nonlinear_arith)
                requires
                    0 <= (a as int),
                    (a as int) < (n_assets as int),
                    t_n >= 0,
            ;
        }
        let base = a * n_traders;
        let lp = markets[a].last_price;
        let mut bb: Vec<Order> = Vec::new();
        let mut sbv: Vec<Order> = Vec::new();
        for t in 0..n_traders
            invariant
                n_assets == markets@.len(),
                n_traders == traders@.len(),
                t_n == traders@.len() as int,
                l == ledger_model(traders@),
                a < n_assets,
                base == (a as int) * t_n,
                base + t_n <= markets@.len() * traders@.len(),
                choices@.len() == markets@.len() * traders@.len(),
                noise@.len() == markets@.len() * traders@.len(),
                lp == markets@[a as int].last_price,
                lp >= 0,
                markets@.len() * traders@.len() <= usize::MAX,
                forall|i: int|
                    0 <= i < traders@.len() ==> (#[trigger] traders@[i]).portfolio@.len()
                        == markets@.len(),
                bb@ == gen_buys(l, lp as int, choices@, noise@, base as int, t as int),
                sbv@ == gen_sells(l, a as int, lp as int, choices@, noise@, base as int, t as int),
        {
            let k = base + t;
            let c = choices[k];
            if c == 2 {
                match lp.checked_add(noise[k]) {
                    Some(p) => {
                        if p >= 0 && p <= traders[t].cash {
                            bb.push(Order { trader: t, price: p, qty: 1 });
                        }
                    },
                    None => {},
                }
            } else if c == 1 {
                if traders[t].portfolio[a] > 0 {
                    match lp.checked_add(noise[k]) {
                        Some(p) => {
                            if p >= 0 {
                                sbv.push(Order { trader: t, price: p, qty: 1 });
                            }
                        },
                        None => {},
                    }
                }
            }
            proof {
                assert(l[t as int].cash == traders@[t as int].cash as int);
                assert(l[t as int].portfolio[a as int] == traders@[t as int].portfolio@[
                    a as int
                ] as int);
            }
        }
        books.set(a, OrderBook { buy_orders: bb, sell_orders: sbv });
    }
}

} // verus!
