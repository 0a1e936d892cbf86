//! Stable price-priority sorting of order lists.
//!
//! Buys are sorted descending, sells ascending; orders with equal price keep
//! their arrival order. The executable sorts return exactly the sequence the
//! recursive insertion-sort specs describe, which pins the tie-break rule.

use vstd::prelude::*;

use crate::types::Order;

verus! {

/// Places a later-arriving order into a descending list: it goes after
/// every earlier order of greater or equal price.
pub open spec fn insert_buy(s: Seq<Order>, o: Order) -> Seq<Order>
    decreases s.len(),
{
    if s.len() == 0 {
        seq![o]
    } else if o.price > s[0].price {
        seq![o] + s
    } else {
        seq![s[0]] + insert_buy(s.drop_first(), o)
    }
}

/// The stable descending sort of a buy list, in arrival order.
pub open spec fn sort_buys_spec(s: Seq<Order>) -> Seq<Order>
    decreases s.len(),
{
    if s.len() == 0 {
        Seq::empty()
    } else {
        insert_buy(sort_buys_spec(s.drop_last()), s.last())
    }
}

/// Places a later-arriving order into an ascending list: it goes after
/// every earlier order of smaller or equal price.
pub open spec fn insert_sell(s: Seq<Order>, o: Order) -> Seq<Order>
    decreases s.len(),
{
    if s.len() == 0 {
        seq![o]
    } else if o.price < s[0].price {
        seq![o] + s
    } else {
        seq![s[0]] + insert_sell(s.drop_first(), o)
    }
}

/// The stable ascending sort of a sell list, in arrival order.
pub open spec fn sort_sells_spec(s: Seq<Order>) -> Seq<Order>
    decreases s.len(),
{
    if s.len() == 0 {
        Seq::empty()
    } else {
        insert_sell(sort_sells_spec(s.drop_last()), s.last())
    }
}

/// Prices never increase along the sequence.
pub open spec fn sorted_desc(s: Seq<Order>) -> bool {
    forall|i: int, j: int| 0 <= i < j < s.len() ==> (#[trigger] s[i]).price >= (#[trigger] s[j]).price
}

/// Prices never decrease along the sequence.
pub open spec fn sorted_asc(s: Seq<Order>) -> bool {
    forall|i: int, j: int| 0 <= i < j < s.len() ==> (#[trigger] s[i]).price <= (#[trigger] s[j]).price
}

/// Inserting into a descending list at the first position whose price is
/// strictly below the new order's price realises `insert_buy`.
proof fn lemma_insert_buy_at(s: Seq<Order>, o: Order, k: int)
    requires
        0 <= k <= s.len(),
        forall|i: int| 0 <= i < k ==> (#[trigger] s[i]).price >= o.price,
        k < s.len() ==> s[k].price < o.price,
    ensures
        insert_buy(s, o) == s.insert(k, o),
    decreases s.len(),
{
    if k == 0 {
        if s.len() == 0 {
            assert(insert_buy(s, o) =~= s.insert(0, o));
        } else {
            assert(o.price > s[0].price);
            assert(seq![o] + s =~= s.insert(0, o));
        }
    } else {
        assert(s[0].price >= o.price);
        let t = s.drop_first();
        assert(forall|i: int| 0 <= i < k - 1 ==> (#[trigger] t[i]).price == s[i + 1].price);
        lemma_insert_buy_at(t, o, k - 1);
        assert(seq![s[0]] + t.insert(k - 1, o) =~= s.insert(k, o));
    }
}

/// As `lemma_insert_buy_at`, for ascending sell lists.
proof fn lemma_insert_sell_at(s: Seq<Order>, o: Order, k: int)
    requires
        0 <= k <= s.len(),
        forall|i: int| 0 <= i < k ==> (#[trigger] s[i]).price <= o.price,
        k < s.len() ==> s[k].price > o.price,
    ensures
        insert_sell(s, o) == s.insert(k, o),
    decreases s.len(),
{
    if k == 0 {
        if s.len() == 0 {
            assert(insert_sell(s, o) =~= s.insert(0, o));
        } else {
            assert(o.price < s[0].price);
            assert(seq![o] + s =~= s.insert(0, o));
        }
    } else {
        assert(s[0].price <= o.price);
        let t = s.drop_first();
        assert(forall|i: int| 0 <= i < k - 1 ==> (#[trigger] t[i]).price == s[i + 1].price);
        lemma_insert_sell_at(t, o, k - 1);
        assert(seq![s[0]] + t.insert(k - 1, o) =~= s.insert(k, o));
    }
}

/// Inserting an element anywhere adds exactly one occurrence of it.
proof fn lemma_to_multiset_insert_at(s: Seq<Order>, k: int, a: Order)
    requires
        0 <= k <= s.len(),
    ensures
        s.insert(k, a).to_multiset() == s.to_multiset().insert(a),
{
    broadcast use vstd::multiset::group_multiset_axioms;

    let r = s.insert(k, a);
    r.to_multiset_ensures();
    s.insert_ensures(k, a);
    assert(r.remove(k) =~= s);
    assert(r[k] == a);
    assert(s.to_multiset() =~= r.to_multiset().remove(a));
    assert(r.contains(a));
    assert(r.to_multiset().count(a) > 0);
    assert forall|x: Order|
        r.to_multiset().count(x) == s.to_multiset().insert(a).count(
            x,
        ) by {
        if x == a {
            assert(s.to_multiset().count(x) == r.to_multiset().count(x) - 1);
        } else {
            assert(s.to_multiset().count(x) == r.to_multiset().count(x));
        }
    }
    assert(r.to_multiset() =~= s.to_multiset().insert(a));
}

/// `insert_buy` keeps a descending list descending and adds exactly the
/// new order.
pub proof fn lemma_insert_buy_sorted(s: Seq<Order>, o: Order)
    requires
        sorted_desc(s),
    ensures
        sorted_desc(insert_buy(s, o)),
        insert_buy(s, o).len() == s.len() + 1,
        insert_buy(s, o).to_multiset() == s.to_multiset().insert(o),
    decreases s.len(),
{
    s.to_multiset_ensures();
    let r = insert_buy(s, o);
    if s.len() == 0 {
        assert(r =~= s.push(o));
        s.to_multiset_ensures();
    } else if o.price > s[0].price {
        assert(r == seq![o] + s);
        assert(r =~= s.insert(0, o));
        lemma_to_multiset_insert_at(s, 0, o);
    } else {
        let t = s.drop_first();
        assert(sorted_desc(t)) by {
            assert(forall|i: int| 0 <= i < t.len() ==> #[trigger] t[i] == s[i + 1]);
        }
        lemma_insert_buy_sorted(t, o);
        let rt = insert_buy(t, o);
        assert(r == seq![s[0]] + rt);
        assert(forall|i: int| 0 <= i < rt.len() ==> #[trigger] r[i + 1] == rt[i]);
        assert(sorted_desc(r)) by {
            assert(forall|i: int| 0 <= i < rt.len() ==> rt.to_multiset().count(#[trigger] rt[i]) > 0)
                by {
                rt.to_multiset_ensures();
            }
            assert(forall|i: int| 0 <= i < rt.len() ==> t.contains(#[trigger] rt[i]) || rt[i] == o)
                by {
                t.to_multiset_ensures();
                rt.to_multiset_ensures();
            }
            assert forall|i: int, j: int| 0 <= i < j < r.len() implies (#[trigger] r[i]).price >= (
            #[trigger] r[j]).price by {
                if i == 0 {
                    assert(r[0] == s[0]);
                    if t.contains(r[j]) {
                        let w = choose|w: int| 0 <= w < t.len() && t[w] == r[j];
                        assert(s[w + 1] == t[w]);
                    } else {
                        assert(r[j] == o);
                        assert(s[0].price >= o.price);
                    }
                } else {
                    assert(r[i] == rt[i - 1] && r[j] == rt[j - 1]);
                }
            }
        }
        broadcast use vstd::multiset::group_multiset_axioms;

        assert(r =~= rt.insert(0, s[0]));
        lemma_to_multiset_insert_at(rt, 0, s[0]);
        assert(s =~= t.insert(0, s[0]));
        lemma_to_multiset_insert_at(t, 0, s[0]);
        assert(r.to_multiset() == t.to_multiset().insert(o).insert(s[0]));
        assert(s.to_multiset().insert(o) == t.to_multiset().insert(s[0]).insert(o));
        assert(r.to_multiset() =~= s.to_multiset().insert(o));
    }
}

/// As `lemma_insert_buy_sorted`, for ascending sell lists.
pub proof fn lemma_insert_sell_sorted(s: Seq<Order>, o: Order)
    requires
        sorted_asc(s),
    ensures
        sorted_asc(insert_sell(s, o)),
        insert_sell(s, o).len() == s.len() + 1,
        insert_sell(s, o).to_multiset() == s.to_multiset().insert(o),
    decreases s.len(),
{
    s.to_multiset_ensures();
    let r = insert_sell(s, o);
    if s.len() == 0 {
        assert(r =~= s.push(o));
        s.to_multiset_ensures();
    } else if o.price < s[0].price {
        assert(r == seq![o] + s);
        assert(r =~= s.insert(0, o));
        lemma_to_multiset_insert_at(s, 0, o);
    } else {
        let t = s.drop_first();
        assert(sorted_asc(t)) by {
            assert(forall|i: int| 0 <= i < t.len() ==> #[trigger] t[i] == s[i + 1]);
        }
        lemma_insert_sell_sorted(t, o);
        let rt = insert_sell(t, o);
        assert(r == seq![s[0]] + rt);
        assert(forall|i: int| 0 <= i < rt.len() ==> #[trigger] r[i + 1] == rt[i]);
        assert(sorted_asc(r)) by {
            assert(forall|i: int| 0 <= i < rt.len() ==> rt.to_multiset().count(#[trigger] rt[i]) > 0)
                by {
                rt.to_multiset_ensures();
            }
            assert(forall|i: int| 0 <= i < rt.len() ==> t.contains(#[trigger] rt[i]) || rt[i] == o)
                by {
                t.to_multiset_ensures();
                rt.to_multiset_ensures();
            }
            assert forall|i: int, j: int| 0 <= i < j < r.len() implies (#[trigger] r[i]).price <= (
            #[trigger] r[j]).price by {
                if i == 0 {
                    assert(r[0] == s[0]);
                    if t.contains(r[j]) {
                        let w = choose|w: int| 0 <= w < t.len() && t[w] == r[j];
                        assert(s[w + 1] == t[w]);
                    } else {
                        assert(r[j] == o);
                        assert(s[0].price <= o.price);
                    }
                } else {
                    assert(r[i] == rt[i - 1] && r[j] == rt[j - 1]);
                }
            }
        }
        broadcast use vstd::multiset::group_multiset_axioms;

        assert(r =~= rt.insert(0, s[0]));
        lemma_to_multiset_insert_at(rt, 0, s[0]);
        assert(s =~= t.insert(0, s[0]));
        lemma_to_multiset_insert_at(t, 0, s[0]);
        assert(r.to_multiset() == t.to_multiset().insert(o).insert(s[0]));
        assert(s.to_multiset().insert(o) == t.to_multiset().insert(s[0]).insert(o));
        assert(r.to_multiset() =~= s.to_multiset().insert(o));
    }
}

/// The buy sort is sorted and a permutation of its input.
pub proof fn lemma_sort_buys_spec(s: Seq<Order>)
    ensures
        sorted_desc(sort_buys_spec(s)),
        sort_buys_spec(s).len() == s.len(),
        sort_buys_spec(s).to_multiset() == s.to_multiset(),
    decreases s.len(),
{
    broadcast use vstd::multiset::group_multiset_axioms;

    if s.len() == 0 {
        assert(s =~= Seq::<Order>::empty());
    } else {
        let d = s.drop_last();
        lemma_sort_buys_spec(d);
        lemma_insert_buy_sorted(sort_buys_spec(d), s.last());
        d.to_multiset_ensures();
        assert(d.push(s.last()) =~= s);
        assert(sort_buys_spec(s).to_multiset() == sort_buys_spec(d).to_multiset().insert(s.last()));
        assert(d.push(s.last()).to_multiset() =~= d.to_multiset().insert(s.last()));
    }
}

/// The sell sort is sorted and a permutation of its input.
pub proof fn lemma_sort_sells_spec(s: Seq<Order>)
    ensures
        sorted_asc(sort_sells_spec(s)),
        sort_sells_spec(s).len() == s.len(),
        sort_sells_spec(s).to_multiset() == s.to_multiset(),
    decreases s.len(),
{
    broadcast use vstd::multiset::group_multiset_axioms;

    if s.len() == 0 {
        assert(s =~= Seq::<Order>::empty());
    } else {
        let d = s.drop_last();
        lemma_sort_sells_spec(d);
        lemma_insert_sell_sorted(sort_sells_spec(d), s.last());
        d.to_multiset_ensures();
        assert(d.push(s.last()) =~= s);
        assert(sort_sells_spec(s).to_multiset() == sort_sells_spec(d).to_multiset().insert(s.last()));
        assert(d.push(s.last()).to_multiset() =~= d.to_multiset().insert(s.last()));
    }
}

/// The tie-break rule in isolation: orders of one common price are left
/// exactly in arrival order by the buy sort.
pub proof fn lemma_sort_buys_stable_on_ties(s: Seq<Order>, p: i64)
    requires
        forall|i: int| 0 <= i < s.len() ==> (#[trigger] s[i]).price == p,
    ensures
        sort_buys_spec(s) == s,
    decreases s.len(),
{
    if s.len() == 0 {
        assert(sort_buys_spec(s) =~= s);
    } else {
        let d = s.drop_last();
        lemma_sort_buys_stable_on_ties(d, p);
        lemma_insert_buy_at(d, s.last(), d.len() as int);
        assert(d.insert(d.len() as int, s.last()) =~= s);
    }
}

/// The tie-break rule in isolation: orders of one common price are left
/// exactly in arrival order by the sell sort.
pub proof fn lemma_sort_sells_stable_on_ties(s: Seq<Order>, p: i64)
    requires
        forall|i: int| 0 <= i < s.len() ==> (#[trigger] s[i]).price == p,
    ensures
        sort_sells_spec(s) == s,
    decreases s.len(),
{
    if s.len() == 0 {
        assert(sort_sells_spec(s) =~= s);
    } else {
        let d = s.drop_last();
        lemma_sort_sells_stable_on_ties(d, p);
        lemma_insert_sell_at(d, s.last(), d.len() as int);
        assert(d.insert(d.len() as int, s.last()) =~= s);
    }
}

/// A sequence with two positions holding one value counts it at least
/// twice.
proof fn lemma_two_positions_count(s: Seq<Order>, i: int, j: int)
    requires
        0 <= i < j < s.len(),
        s[i] == s[j],
    ensures
        s.to_multiset().count(s[i]) >= 2,
{
    broadcast use vstd::multiset::group_multiset_axioms;

    let v = s[i];
    s.to_multiset_ensures();
    assert(s.contains(v));
    assert(s.remove(i).to_multiset() =~= s.to_multiset().remove(v));
    assert(s.remove(i)[j - 1] == v);
    s.remove(i).to_multiset_ensures();
    assert(s.remove(i).contains(v));
    assert(s.remove(i).to_multiset().count(v) > 0);
}

/// A value counted at least twice sits at two distinct positions.
proof fn lemma_count_two_positions(s: Seq<Order>, v: Order) -> (r: (int, int))
    requires
        s.to_multiset().count(v) >= 2,
    ensures
        0 <= r.0 < s.len(),
        0 <= r.1 < s.len(),
        r.0 != r.1,
        s[r.0] == v,
        s[r.1] == v,
{
    broadcast use vstd::multiset::group_multiset_axioms;

    s.to_multiset_ensures();
    assert(s.contains(v));
    let p = choose|p: int| 0 <= p < s.len() && s[p] == v;
    assert(s.remove(p).to_multiset() =~= s.to_multiset().remove(v));
    s.remove(p).to_multiset_ensures();
    assert(s.remove(p).to_multiset().count(v) > 0);
    assert(s.remove(p).contains(v));
    let q = choose|q: int| 0 <= q < s.remove(p).len() && s.remove(p)[q] == v;
    s.remove_ensures(p);
    if q < p {
        (p, q)
    } else {
        (p, q + 1)
    }
}

/// A permutation of a list whose orders carry pairwise distinct trader
/// indices again carries pairwise distinct trader indices.
pub proof fn lemma_perm_distinct_traders(s1: Seq<Order>, s2: Seq<Order>)
    requires
        s1.to_multiset() == s2.to_multiset(),
        forall|i: int, j: int|
            0 <= i < j < s1.len() ==> (#[trigger] s1[i]).trader != (#[trigger] s1[j]).trader,
    ensures
        forall|i: int, j: int|
            0 <= i < j < s2.len() ==> (#[trigger] s2[i]).trader != (#[trigger] s2[j]).trader,
{
    broadcast use vstd::multiset::group_multiset_axioms;

    assert forall|i: int, j: int|
        0 <= i < j < s2.len() implies (#[trigger] s2[i]).trader != (#[trigger] s2[j]).trader by {
        s1.to_multiset_ensures();
        s2.to_multiset_ensures();
        if s2[i].trader == s2[j].trader {
            if s2[i] == s2[j] {
                lemma_two_positions_count(s2, i, j);
                let pq = lemma_count_two_positions(s1, s2[i]);
                assert(s1[pq.0].trader == s1[pq.1].trader);
                assert(false);
            } else {
                assert(s2.contains(s2[i]));
                assert(s2.contains(s2[j]));
                assert(s1.to_multiset().count(s2[i]) > 0);
                assert(s1.to_multiset().count(s2[j]) > 0);
                assert(s1.contains(s2[i]));
                assert(s1.contains(s2[j]));
                let p = choose|p: int| 0 <= p < s1.len() && s1[p] == s2[i];
                let q = choose|q: int| 0 <= q < s1.len() && s1[q] == s2[j];
                assert(p != q);
                assert(s1[p].trader != s1[q].trader);
                assert(false);
            }
        }
    }
}

/// Permutations of two trader-disjoint lists stay trader-disjoint.
pub proof fn lemma_perm_cross_distinct(
    b1: Seq<Order>,
    s1: Seq<Order>,
    b2: Seq<Order>,
    s2: Seq<Order>,
)
    requires
        b1.to_multiset() == b2.to_multiset(),
        s1.to_multiset() == s2.to_multiset(),
        forall|i: int, j: int|
            0 <= i < b1.len() && 0 <= j < s1.len() ==> (#[trigger] b1[i]).trader != (
            #[trigger] s1[j]).trader,
    ensures
        forall|i: int, j: int|
            0 <= i < b2.len() && 0 <= j < s2.len() ==> (#[trigger] b2[i]).trader != (
            #[trigger] s2[j]).trader,
{
    broadcast use vstd::multiset::group_multiset_axioms;

    assert forall|i: int, j: int|
        0 <= i < b2.len() && 0 <= j < s2.len() implies (#[trigger] b2[i]).trader != (
    #[trigger] s2[j]).trader by {
        b1.to_multiset_ensures();
        b2.to_multiset_ensures();
        s1.to_multiset_ensures();
        s2.to_multiset_ensures();
        assert(b2.contains(b2[i]));
        assert(s2.contains(s2[j]));
        assert(b1.to_multiset().count(b2[i]) > 0);
        assert(s1.to_multiset().count(s2[j]) > 0);
        assert(b1.contains(b2[i]));
        assert(s1.contains(s2[j]));
        let p = choose|p: int| 0 <= p < b1.len() && b1[p] == b2[i];
        let q = choose|q: int| 0 <= q < s1.len() && s1[q] == s2[j];
        assert(b1[p].trader != s1[q].trader);
    }
}

/// Sorts a buy list descending by price, stably.
pub fn sort_buy_orders(v: &mut Vec<Order>)
    ensures
        final(v)@ == sort_buys_spec(old(v)@),
        final(v)@.len() == old(v)@.len(),
        sorted_desc(final(v)@),
        final(v)@.to_multiset() == old(v)@.to_multiset(),
{
    let ghost orig = v@;
    let mut out: Vec<Order> = Vec::new();
    let n = v.len();
    for idx in 0..n
        invariant
            n == orig.len(),
            v@ == orig,
            out@ == sort_buys_spec(orig.take(idx as int)),
    {
        let o = v[idx];
        let mut k: usize = 0;
        while k < out.len() && out[k].price >= o.price
            invariant
                0 <= k <= out@.len(),
                forall|i: int| 0 <= i < k ==> (#[trigger] out@[i]).price >= o.price,
            decreases out@.len() - k,
        {
            k += 1;
        }
        proof {
            lemma_insert_buy_at(out@, o, k as int);
            assert(orig.take(idx + 1).drop_last() =~= orig.take(idx as int));
            assert(orig.take(idx + 1).last() == orig[idx as int]);
        }
        out.insert(k, o);
    }
    proof {
        assert(orig.take(n as int) =~= orig);
        lemma_sort_buys_spec(orig);
    }
    *v = out;
}

/// Sorts a sell list ascending by price, stably.
pub fn sort_sell_orders(v: &mut Vec<Order>)
    ensures
        final(v)@ == sort_sells_spec(old(v)@),
        final(v)@.len() == old(v)@.len(),
        sorted_asc(final(v)@),
        final(v)@.to_multiset() == old(v)@.to_multiset(),
{
    let ghost orig = v@;
    let mut out: Vec<Order> = Vec::new();
    let n = v.len();
    for idx in 0..n
        invariant
            n == orig.len(),
            v@ == orig,
            out@ == sort_sells_spec(orig.take(idx as int)),
    {
        let o = v[idx];
        let mut k: usize = 0;
        while k < out.len() && out[k].price <= o.price
            invariant
                0 <= k <= out@.len(),
                forall|i: int| 0 <= i < k ==> (#[trigger] out@[i]).price <= o.price,
            decreases out@.len() - k,
        {
            k += 1;
        }
        proof {
            lemma_insert_sell_at(out@, o, k as int);
            assert(orig.take(idx + 1).drop_last() =~= orig.take(idx as int));
            assert(orig.take(idx + 1).last() == orig[idx as int]);
        }
        out.insert(k, o);
    }
    proof {
        assert(orig.take(n as int) =~= orig);
        lemma_sort_sells_spec(orig);
    }
    *v = out;
}

} // verus!
