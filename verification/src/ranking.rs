//! Price-time order, and a stable sort into it.

use vstd::prelude::*;
use crate::model::views;
use crate::state::{AskOrder, BidOrder, OrderView};

verus! {

/// `a` comes strictly before `b` in price-time order: the higher price first, and
/// of two orders at one price the one that arrived earlier.
pub open spec fn ranks_before(a: OrderView, b: OrderView) -> bool {
    a.price > b.price || (a.price == b.price && a.ts < b.ts)
}

/// How many orders from position `k` of `t` on, without a gap, rank strictly before
/// `x`, counted on from `k`.
pub open spec fn lead_from(x: OrderView, t: Seq<OrderView>, k: int) -> int
    decreases t.len() - k,
{
    if 0 <= k < t.len() && ranks_before(t[k], x) {
        lead_from(x, t, k + 1)
    } else {
        k
    }
}

/// `t` with `x` put behind the orders at its head that rank strictly before `x`.
pub open spec fn placed(x: OrderView, t: Seq<OrderView>) -> Seq<OrderView> {
    t.insert(lead_from(x, t, 0), x)
}

/// The orders of `s` in price-time order; orders of one price and one arrival time
/// stay in the order that they have in `s`.
pub open spec fn price_time_sorted(s: Seq<OrderView>) -> Seq<OrderView>
    decreases s.len(),
{
    if s.len() == 0 {
        Seq::empty()
    } else {
        placed(s.first(), price_time_sorted(s.drop_first()))
    }
}

/// No order of `s` ranks strictly before one that stands ahead of it.
pub open spec fn in_price_time_order(s: Seq<OrderView>) -> bool {
    forall|i: int, j: int| 0 <= i < j < s.len() ==> !ranks_before(s[j], s[i])
}

/// An order that can be ranked by price and arrival time.
pub trait Ranked: View<V = OrderView> + Sized {
    /// The price of the order.
    fn price_of(&self) -> (p: u128)
        ensures
            p == self@.price,
    ;

    /// The tick at which the order arrived.
    fn ts_of(&self) -> (t: u64)
        ensures
            t == self@.ts,
    ;
}

impl Ranked for BidOrder {
    fn price_of(&self) -> (p: u128) {
        self.price
    }

    fn ts_of(&self) -> (t: u64) {
        self.ts
    }
}

impl Ranked for AskOrder {
    fn price_of(&self) -> (p: u128) {
        self.price
    }

    fn ts_of(&self) -> (t: u64) {
        self.ts
    }
}

/// Where `lead_from` stops: within the list, behind orders that all rank strictly
/// before `x`, and at an order that does not.
pub proof fn lemma_lead_from_bounds(x: OrderView, t: Seq<OrderView>, k: int)
    requires
        0 <= k <= t.len(),
    ensures
        k <= lead_from(x, t, k) <= t.len(),
        forall|j: int| k <= j < lead_from(x, t, k) ==> ranks_before(#[trigger] t[j], x),
        lead_from(x, t, k) < t.len() ==> !ranks_before(t[lead_from(x, t, k)], x),
    decreases t.len() - k,
{
    if k < t.len() && ranks_before(t[k], x) {
        lemma_lead_from_bounds(x, t, k + 1);
    }
}

/// Put a list of orders into price-time order, keeping the order of equals.
pub fn sort_price_time<T: Ranked>(orders: Vec<T>) -> (sorted: Vec<T>)
    ensures
        views(sorted@) == price_time_sorted(views(orders@)),
{
    let ghost all = views(orders@);
    let mut rest = orders;
    let mut out: Vec<T> = Vec::new();
    assert(all.subrange(all.len() as int, all.len() as int) =~= Seq::<OrderView>::empty());
    assert(views(out@) =~= Seq::<OrderView>::empty());
    while rest.len() > 0
        invariant
            rest@.len() <= all.len(),
            views(rest@) == all.subrange(0, rest@.len() as int),
            views(out@) == price_time_sorted(all.subrange(rest@.len() as int, all.len() as int)),
        decreases rest@.len(),
    {
        let ghost before = rest@;
        let ghost tail = all.subrange(rest@.len() as int, all.len() as int);
        let x = rest.pop().unwrap();
        let ghost t = views(out@);
        let mut k: usize = 0;
        proof {
            lemma_lead_from_bounds(x@, t, 0);
        }
        while k < out.len() && (out[k].price_of() > x.price_of() || (out[k].price_of()
            == x.price_of() && out[k].ts_of() < x.ts_of()))
            invariant
                k <= out@.len(),
                t == views(out@),
                lead_from(x@, t, k as int) == lead_from(x@, t, 0),
            decreases out@.len() - k,
        {
            assert(t[k as int] == out@[k as int]@);
            k = k + 1;
        }
        proof {
            if k < out@.len() {
                assert(t[k as int] == out@[k as int]@);
            }
            assert(lead_from(x@, t, 0) == k);
            let shorter = all.subrange(before.len() - 1, all.len() as int);
            assert(views(before)[before.len() - 1] == x@);
            assert(shorter.first() == x@);
            assert(shorter.drop_first() =~= tail);
        }
        let ghost xv = x@;
        out.insert(k, x);
        assert(views(out@) =~= placed(xv, t));
        assert(views(rest@) =~= all.subrange(0, rest@.len() as int));
    }
    assert(all.subrange(0, all.len() as int) =~= all);
    out
}

/// Placing an order into a list in price-time order keeps the list in that order and
/// one longer.
pub proof fn lemma_placed_in_order(x: OrderView, t: Seq<OrderView>)
    requires
        in_price_time_order(t),
    ensures
        in_price_time_order(placed(x, t)),
        placed(x, t).len() == t.len() + 1,
        placed(x, t).to_multiset() == t.to_multiset().insert(x),
{
    lemma_lead_from_bounds(x, t, 0);
    let k = lead_from(x, t, 0);
    let p = placed(x, t);
    vstd::seq_lib::to_multiset_insert(t, k, x);
    assert forall|i: int, j: int| 0 <= i < j < p.len() implies !ranks_before(p[j], p[i]) by {
        if j == k {
            assert(ranks_before(t[i], x));
        } else if i == k {
            assert(!ranks_before(t[k], x));
            assert(!ranks_before(t[j - 1], t[k])) by {
                if j - 1 > k {
                }
            }
        } else if i < k && j > k {
            assert(!ranks_before(t[j - 1], t[i]));
        } else if i < k {
            assert(!ranks_before(t[j], t[i]));
        } else {
            assert(!ranks_before(t[j - 1], t[i - 1]));
        }
    }
}

/// The sorted list is in price-time order and holds the orders of the list it was
/// made from, each as often as that list does.
pub proof fn lemma_sorted_is_ordered_permutation(s: Seq<OrderView>)
    ensures
        in_price_time_order(price_time_sorted(s)),
        price_time_sorted(s).len() == s.len(),
        price_time_sorted(s).to_multiset() == s.to_multiset(),
    decreases s.len(),
{
    broadcast use vstd::seq_lib::group_to_multiset_ensures;

    if s.len() == 0 {
        assert(price_time_sorted(s).to_multiset() =~= s.to_multiset());
    } else {
        let rest = s.drop_first();
        lemma_sorted_is_ordered_permutation(rest);
        lemma_placed_in_order(s.first(), price_time_sorted(rest));
        assert(s =~= seq![s.first()] + rest);
        assert(rest =~= rest.insert(0, s.first()).drop_first());
        vstd::seq_lib::to_multiset_insert(rest, 0, s.first());
        assert(rest.insert(0, s.first()) =~= s);
    }
}

/// Every order of the sorted list is an order of the list it was made from, and the
/// other way round.
pub proof fn lemma_sorted_same_orders(s: Seq<OrderView>, o: OrderView)
    ensures
        price_time_sorted(s).contains(o) <==> s.contains(o),
{
    lemma_sorted_is_ordered_permutation(s);
    vstd::seq_lib::to_multiset_contains(s, o);
    vstd::seq_lib::to_multiset_contains(price_time_sorted(s), o);
}

/// The orders of `s` of one price and one arrival time, in the order of `s`.
pub open spec fn of_rank(s: Seq<OrderView>, price: u128, ts: u64) -> Seq<OrderView> {
    s.filter(|o: OrderView| o.price == price && o.ts == ts)
}

/// A list without an order of a rank has nothing of that rank to show.
proof fn lemma_of_rank_none(s: Seq<OrderView>, price: u128, ts: u64)
    requires
        forall|i: int| 0 <= i < s.len() ==> !((#[trigger] s[i]).price == price && s[i].ts == ts),
    ensures
        of_rank(s, price, ts) == Seq::<OrderView>::empty(),
    decreases s.len(),
{
    reveal(Seq::filter);
    if s.len() > 0 {
        assert forall|i: int| 0 <= i < s.drop_last().len() implies !((
        #[trigger] s.drop_last()[i]).price == price && s.drop_last()[i].ts == ts) by {
            assert(s.drop_last()[i] == s[i]);
        }
        lemma_of_rank_none(s.drop_last(), price, ts);
    }
}

/// What a list of one order shows of a rank.
proof fn lemma_of_rank_one(x: OrderView, price: u128, ts: u64)
    ensures
        of_rank(seq![x], price, ts) == if x.price == price && x.ts == ts {
            seq![x]
        } else {
            Seq::<OrderView>::empty()
        },
{
    reveal_with_fuel(Seq::filter, 2);
    assert(seq![x].drop_last() =~= Seq::<OrderView>::empty());
    assert(Seq::<OrderView>::empty().push(x) =~= seq![x]);
}

/// The sort is stable: the orders of one price and one arrival time stand in the
/// sorted list in the order that they had before.
pub proof fn lemma_sorted_is_stable(s: Seq<OrderView>, price: u128, ts: u64)
    ensures
        of_rank(price_time_sorted(s), price, ts) == of_rank(s, price, ts),
    decreases s.len(),
{
    let pred = |o: OrderView| o.price == price && o.ts == ts;
    if s.len() == 0 {
    } else {
        let x = s.first();
        let rest = s.drop_first();
        let t = price_time_sorted(rest);
        lemma_sorted_is_stable(rest, price, ts);
        lemma_lead_from_bounds(x, t, 0);
        let k = lead_from(x, t, 0);
        let head = t.subrange(0, k);
        let tail = t.subrange(k, t.len() as int);
        assert(t =~= head + tail);
        assert(placed(x, t) =~= head + seq![x] + tail);
        assert(s =~= seq![x] + rest);
        Seq::filter_distributes_over_add(head, tail, pred);
        Seq::filter_distributes_over_add(head, seq![x], pred);
        Seq::filter_distributes_over_add(head + seq![x], tail, pred);
        Seq::filter_distributes_over_add(seq![x], rest, pred);
        lemma_of_rank_one(x, price, ts);
        if x.price == price && x.ts == ts {
            assert forall|i: int| 0 <= i < head.len() implies !((#[trigger] head[i]).price == price
                && head[i].ts == ts) by {
                assert(ranks_before(t[i], x));
            }
            lemma_of_rank_none(head, price, ts);
            assert(Seq::<OrderView>::empty() + seq![x] =~= seq![x]);
            assert(Seq::<OrderView>::empty() + tail.filter(pred) =~= tail.filter(pred));
        } else {
            assert(head.filter(pred) + Seq::<OrderView>::empty() =~= head.filter(pred));
            assert(Seq::<OrderView>::empty() + rest.filter(pred) =~= rest.filter(pred));
        }
    }
}

} // verus!
