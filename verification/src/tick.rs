//! A sweep is the sweep of the orders that arrived before its tick: the orders of
//! the tick itself, and later ones, can be taken away and nothing else changes.

use vstd::prelude::*;
use crate::error::ErrorView;
use crate::matching::{lemma_match_keeps_identity, matched};
use crate::ranking::{
    in_price_time_order, lead_from, lemma_lead_from_bounds, lemma_sorted_is_ordered_permutation,
    placed, price_time_sorted, ranks_before,
};
use crate::state::OrderView;
use crate::sweep::{crosses, filled, fresh, recorded, swept, swept_from, SweepView};

verus! {

/// The orders of `s` that arrived before the tick `now`, in the order of `s`.
pub open spec fn early(s: Seq<OrderView>, now: u64) -> Seq<OrderView> {
    s.filter(|o: OrderView| o.before(now))
}

/// The sweep `st` without the bids in hand that arrived at the tick `now` or later.
pub open spec fn without_late(st: SweepView, now: u64) -> SweepView {
    SweepView { bids: early(st.bids, now), ..st }
}

/// The outcome `r` of a sweep without the bids in hand that arrived at the tick `now`
/// or later.
pub open spec fn outcome_without_late(r: Result<SweepView, ErrorView>, now: u64) -> Result<
    SweepView,
    ErrorView,
> {
    match r {
        Ok(st) => Ok(without_late(st, now)),
        Err(e) => Err(e),
    }
}

/// What a list of one order shows of the early orders.
proof fn lemma_early_one(x: OrderView, now: u64)
    ensures
        early(seq![x], now) == if x.before(now) {
            seq![x]
        } else {
            Seq::<OrderView>::empty()
        },
{
    reveal_with_fuel(Seq::filter, 2);
    assert(seq![x].drop_last() =~= Seq::<OrderView>::empty());
    assert(Seq::<OrderView>::empty().push(x) =~= seq![x]);
}

/// The early orders of a list are those of its first `j` orders, then the order at
/// `j` if it is early, then those of the rest.
proof fn lemma_early_split(s: Seq<OrderView>, j: int, now: u64)
    requires
        0 <= j < s.len(),
    ensures
        early(s, now) == early(s.take(j), now) + early(seq![s[j]], now) + early(
            s.skip(j + 1),
            now,
        ),
        early(s.take(j + 1), now) == early(s.take(j), now) + early(seq![s[j]], now),
{
    let pred = |o: OrderView| o.before(now);
    assert(s =~= s.take(j) + seq![s[j]] + s.skip(j + 1));
    assert(s.take(j + 1) =~= s.take(j) + seq![s[j]]);
    Seq::filter_distributes_over_add(s.take(j), seq![s[j]], pred);
    Seq::filter_distributes_over_add(s.take(j) + seq![s[j]], s.skip(j + 1), pred);
}

/// Where an early order of a list stands among the early orders, and what taking it
/// out or replacing it by an early order does to them.
proof fn lemma_early_at(s: Seq<OrderView>, j: int, y: OrderView, now: u64)
    requires
        0 <= j < s.len(),
        s[j].before(now),
        y.before(now),
    ensures
        ({
            let at = early(s.take(j), now).len() as int;
            &&& at < early(s, now).len()
            &&& early(s, now)[at] == s[j]
            &&& early(s.remove(j), now) == early(s, now).remove(at)
            &&& early(s.update(j, y), now) == early(s, now).update(at, y)
            &&& early(s.remove(j).take(j), now) == early(s.take(j), now)
            &&& early(s.update(j, y).take(j + 1), now).len() == at + 1
        }),
{
    let pred = |o: OrderView| o.before(now);
    let head = s.take(j);
    let tail = s.skip(j + 1);
    lemma_early_split(s, j, now);
    lemma_early_one(s[j], now);
    lemma_early_one(y, now);
    assert(s.remove(j) =~= head + tail);
    Seq::filter_distributes_over_add(head, tail, pred);
    assert(early(s.remove(j), now) =~= early(s, now).remove(early(head, now).len() as int));
    let t = s.update(j, y);
    lemma_early_split(t, j, now);
    assert(t.take(j) =~= head);
    assert(t.skip(j + 1) =~= tail);
    assert(t[j] == y);
    assert(early(t, now) =~= early(s, now).update(early(head, now).len() as int, y));
    assert(s.remove(j).take(j) =~= head);
}

/// Filling an ask without the late bids comes to the same as filling it with them:
/// the late bids stay in hand, and nothing else differs.
pub proof fn lemma_filled_without_late(ask: OrderView, j: int, st: SweepView, now: u64)
    requires
        0 <= j <= st.bids.len(),
    ensures
        outcome_without_late(filled(ask, j, st, now), now) == filled(
            ask,
            early(st.bids.take(j), now).len() as int,
            without_late(st, now),
            now,
        ),
    decreases st.bids.len() - j,
{
    let short = without_late(st, now);
    let at = early(st.bids.take(j), now).len() as int;
    if j >= st.bids.len() {
        assert(st.bids.take(j) =~= st.bids);
    } else {
        let b = st.bids[j];
        lemma_early_split(st.bids, j, now);
        lemma_early_one(b, now);
        if !b.before(now) {
            lemma_filled_without_late(ask, j + 1, st, now);
            assert(early(st.bids.take(j + 1), now) =~= early(st.bids.take(j), now));
        } else {
            let m = matched(b, ask);
            lemma_match_keeps_identity(b, ask);
            lemma_early_at(st.bids, j, m.bid, now);
            assert(short.bids[at] == b);
            if !crosses(b, ask, now) {
                lemma_filled_without_late(ask, j + 1, st, now);
                assert(early(st.bids.take(j + 1), now).len() == at + 1);
            } else if b.is_closed() || ask.is_closed() {
            } else {
                let next = recorded(st, j, m, b.id, ask.id);
                assert(without_late(next, now) == recorded(short, at, m, b.id, ask.id));
                if m.ask.is_closed() {
                } else if m.bid.is_closed() {
                    lemma_filled_without_late(m.ask, j, next, now);
                } else {
                    lemma_filled_without_late(m.ask, j + 1, next, now);
                }
            }
        }
    }
}

/// Sweeping on without the late orders comes to the same as sweeping on with them.
pub proof fn lemma_swept_from_without_late(asks: Seq<OrderView>, i: int, st: SweepView, now: u64)
    requires
        0 <= i <= asks.len(),
    ensures
        outcome_without_late(swept_from(asks, i, st, now), now) == swept_from(
            early(asks, now),
            early(asks.take(i), now).len() as int,
            without_late(st, now),
            now,
        ),
    decreases asks.len() - i,
{
    let short = early(asks, now);
    let at = early(asks.take(i), now).len() as int;
    if i >= asks.len() {
        assert(asks.take(i) =~= asks);
    } else {
        let a = asks[i];
        lemma_early_split(asks, i, now);
        lemma_early_one(a, now);
        if !a.before(now) {
            lemma_swept_from_without_late(asks, i + 1, st, now);
            assert(early(asks.take(i + 1), now) =~= early(asks.take(i), now));
        } else {
            lemma_early_at(asks, i, a, now);
            assert(short[at] == a);
            assert(early(asks.take(i + 1), now).len() == at + 1);
            lemma_filled_without_late(a, 0, st, now);
            assert(st.bids.take(0) =~= Seq::<OrderView>::empty());
            assert(early(Seq::<OrderView>::empty(), now) =~= Seq::<OrderView>::empty()) by {
                reveal(Seq::filter);
            }
            match filled(a, 0, st, now) {
                Ok(next) => {
                    lemma_swept_from_without_late(asks, i + 1, next, now);
                },
                Err(e) => {},
            }
        }
    }
}

/// No order that arrived at the tick of a sweep or later takes part in it: the sweep
/// of all the orders hands out, records and refuses what the sweep of the orders
/// that arrived before the tick does, and has the other bids in hand besides.
pub proof fn lemma_sweep_without_late(bids: Seq<OrderView>, asks: Seq<OrderView>, now: u64)
    ensures
        outcome_without_late(swept(bids, asks, now), now) == swept(
            early(bids, now),
            early(asks, now),
            now,
        ),
{
    lemma_swept_from_without_late(asks, 0, fresh(bids), now);
    assert(asks.take(0) =~= Seq::<OrderView>::empty());
    assert(early(Seq::<OrderView>::empty(), now) =~= Seq::<OrderView>::empty()) by {
        reveal(Seq::filter);
    }
    assert(without_late(fresh(bids), now) == fresh(early(bids, now)));
}

/// Where `lead_from` stops is the one place behind orders that all rank strictly
/// before `x` and at an order that does not.
proof fn lemma_lead_from_is(x: OrderView, t: Seq<OrderView>, k: int, n: int)
    requires
        0 <= k <= n <= t.len(),
        forall|i: int| k <= i < n ==> ranks_before(#[trigger] t[i], x),
        n < t.len() ==> !ranks_before(t[n], x),
    ensures
        lead_from(x, t, k) == n,
    decreases n - k,
{
    if k < n {
        assert(ranks_before(t[k], x));
        lemma_lead_from_is(x, t, k + 1, n);
    }
}

/// Placing an order into a list in price-time order and then leaving out the late
/// orders comes to the same as leaving them out first.
proof fn lemma_placed_without_late(x: OrderView, t: Seq<OrderView>, now: u64)
    requires
        in_price_time_order(t),
    ensures
        early(placed(x, t), now) == if x.before(now) {
            placed(x, early(t, now))
        } else {
            early(t, now)
        },
{
    broadcast use vstd::seq_lib::group_filter_ensures;

    let pred = |o: OrderView| o.before(now);
    lemma_lead_from_bounds(x, t, 0);
    let k = lead_from(x, t, 0);
    let head = t.take(k);
    let tail = t.skip(k);
    assert(t =~= head + tail);
    assert(placed(x, t) =~= head + seq![x] + tail);
    Seq::filter_distributes_over_add(head, tail, pred);
    Seq::filter_distributes_over_add(head, seq![x], pred);
    Seq::filter_distributes_over_add(head + seq![x], tail, pred);
    lemma_early_one(x, now);
    let eh = early(head, now);
    let et = early(tail, now);
    if x.before(now) {
        let e = early(t, now);
        let n = eh.len() as int;
        assert forall|i: int| 0 <= i < n implies ranks_before(#[trigger] e[i], x) by {
            assert(e[i] == eh[i]);
            head.lemma_filter_contains_rev(pred, eh[i]);
            let a = choose|a: int| 0 <= a < head.len() && head[a] == eh[i];
            assert(ranks_before(t[a], x));
        }
        if n < e.len() {
            assert(e[n] == et[0]);
            tail.lemma_filter_contains_rev(pred, et[0]);
            let a = choose|a: int| 0 <= a < tail.len() && tail[a] == et[0];
            assert(tail[a] == t[k + a]);
            assert(!ranks_before(t[k], x));
            if a > 0 {
                assert(!ranks_before(t[k + a], t[k]));
            }
        }
        lemma_lead_from_is(x, e, 0, n);
        assert(placed(x, e) =~= eh + seq![x] + et);
    } else {
        assert(eh + Seq::<OrderView>::empty() =~= eh);
    }
}

/// Sorting a list into price-time order and then leaving out the late orders comes
/// to the same as leaving them out first.
pub proof fn lemma_sorted_without_late(s: Seq<OrderView>, now: u64)
    ensures
        early(price_time_sorted(s), now) == price_time_sorted(early(s, now)),
    decreases s.len(),
{
    let pred = |o: OrderView| o.before(now);
    if s.len() == 0 {
        assert(early(s, now) =~= Seq::<OrderView>::empty()) by {
            reveal(Seq::filter);
        }
        assert(early(Seq::<OrderView>::empty(), now) =~= Seq::<OrderView>::empty()) by {
            reveal(Seq::filter);
        }
    } else {
        let x = s.first();
        let rest = s.drop_first();
        let t = price_time_sorted(rest);
        lemma_sorted_without_late(rest, now);
        lemma_sorted_is_ordered_permutation(rest);
        lemma_placed_without_late(x, t, now);
        assert(s =~= seq![x] + rest);
        Seq::filter_distributes_over_add(seq![x], rest, pred);
        lemma_early_one(x, now);
        if x.before(now) {
            let e = early(s, now);
            assert(e =~= seq![x] + early(rest, now));
            assert(e.first() == x);
            assert(e.drop_first() =~= early(rest, now));
        } else {
            assert(Seq::<OrderView>::empty() + early(rest, now) =~= early(rest, now));
        }
    }
}

} // verus!
