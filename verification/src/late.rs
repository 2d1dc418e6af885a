//! The orders of the current tick in the store: a match on a store is the match on
//! the store without them, and leaves them where they are.

use vstd::prelude::*;
use crate::book::{all_orders, book_side, config_of, orders_of};
use crate::codec::{ask_side, bid_side, order_of};
use crate::contract::{any_before, applied, match_outcome};
use crate::ledger::{
    late_record, lemma_sides_apart, lemma_updates_miss_late_orders, match_can_list, place_of,
};
use crate::state::OrderView;
use crate::store::{
    bytes_lt, is_listing, lemma_listing_lists, lemma_listing_unique, listable, listing, Entries,
};
use crate::sweep::UpdateView;
use crate::tick::{early, lemma_sorted_without_late, lemma_sweep_without_late};

verus! {

/// The places of the orders that `m` holds and that arrived at the tick `now` or
/// later.
pub open spec fn late_places(m: Entries, now: u64) -> Set<(Seq<u8>, Seq<u8>)> {
    Set::new(|at: (Seq<u8>, Seq<u8>)| late_record(m, at.0, at.1, now))
}

/// `m` without the orders that arrived at the tick `now` or later.
pub open spec fn without_late_orders(m: Entries, now: u64) -> Entries {
    m.remove_keys(late_places(m, now))
}

/// The entry `e` of a listing is not the record of an order that arrived at the tick
/// `now` or later.
pub open spec fn not_late(e: (Seq<u8>, Seq<u8>), now: u64) -> bool {
    !(order_of(e.0, e.1) is Some && !order_of(e.0, e.1)->Some_0.before(now))
}

/// The entries of the listing `l` that are not records of orders that arrived at the
/// tick `now` or later, in the order of `l`.
pub open spec fn kept(l: Seq<(Seq<u8>, Seq<u8>)>, now: u64) -> Seq<(Seq<u8>, Seq<u8>)> {
    l.filter(|e: (Seq<u8>, Seq<u8>)| not_late(e, now))
}

/// The keys of `l` ascend.
pub open spec fn ascending(l: Seq<(Seq<u8>, Seq<u8>)>) -> bool {
    forall|i: int, j: int| 0 <= i < j < l.len() ==> bytes_lt((#[trigger] l[i]).0, (#[trigger] l[j]).0)
}

/// Leaving entries out of a listing keeps its keys ascending.
proof fn lemma_kept_ascending(l: Seq<(Seq<u8>, Seq<u8>)>, now: u64)
    requires
        ascending(l),
    ensures
        ascending(kept(l, now)),
    decreases l.len(),
{
    let pred = |e: (Seq<u8>, Seq<u8>)| not_late(e, now);
    reveal(Seq::filter);
    if l.len() > 0 {
        let init = l.drop_last();
        assert forall|i: int, j: int| 0 <= i < j < init.len() implies bytes_lt(
            (#[trigger] init[i]).0,
            (#[trigger] init[j]).0,
        ) by {
            assert(init[i] == l[i] && init[j] == l[j]);
        }
        lemma_kept_ascending(init, now);
        let q = kept(l, now);
        let qi = kept(init, now);
        assert forall|i: int, j: int| 0 <= i < j < q.len() implies bytes_lt(
            (#[trigger] q[i]).0,
            (#[trigger] q[j]).0,
        ) by {
            if j < qi.len() {
                assert(q[i] == qi[i] && q[j] == qi[j]);
            } else {
                assert(q[j] == l.last());
                assert(q[i] == qi[i]);
                assert(qi.contains(qi[i]));
                init.lemma_filter_contains_rev(pred, qi[i]);
                let a = choose|a: int| 0 <= a < init.len() && init[a] == qi[i];
                assert(init[a] == l[a]);
            }
        }
    }
}

/// The orders of the entries that are kept are the early orders of the listing; and
/// a listing with an entry that is no order keeps that entry.
proof fn lemma_kept_orders(l: Seq<(Seq<u8>, Seq<u8>)>, now: u64)
    ensures
        all_orders(l) == all_orders(kept(l, now)),
        all_orders(l) ==> orders_of(kept(l, now)) == early(orders_of(l), now),
    decreases l.len(),
{
    let pred = |e: (Seq<u8>, Seq<u8>)| not_late(e, now);
    let by_tick = |o: OrderView| o.before(now);
    reveal(Seq::filter);
    if l.len() == 0 {
        assert(orders_of(kept(l, now)) =~= early(orders_of(l), now));
    } else {
        let init = l.drop_last();
        let last = l.last();
        lemma_kept_orders(init, now);
        let q = kept(l, now);
        let qi = kept(init, now);
        if all_orders(l) {
            assert forall|i: int| 0 <= i < init.len() implies order_of(
                (#[trigger] init[i]).0,
                init[i].1,
            ) is Some by {
                assert(init[i] == l[i]);
            }
            assert(order_of(last.0, last.1) is Some);
            assert forall|i: int| 0 <= i < q.len() implies order_of((#[trigger] q[i]).0, q[i].1)
                is Some by {
                if i < qi.len() {
                    assert(q[i] == qi[i]);
                }
            }
            assert(orders_of(l).drop_last() =~= orders_of(init));
            assert(orders_of(l).last() == order_of(last.0, last.1)->Some_0);
            assert(orders_of(q) =~= early(orders_of(l), now));
        } else {
            let bad = choose|i: int| 0 <= i < l.len() && !(order_of((#[trigger] l[i]).0, l[i].1) is Some);
            if bad < init.len() {
                assert(init[bad] == l[bad]);
                assert(!all_orders(init));
                let worse = choose|i: int|
                    0 <= i < qi.len() && !(order_of((#[trigger] qi[i]).0, qi[i].1) is Some);
                assert(q[worse] == qi[worse]);
            } else {
                assert(q[q.len() - 1] == last);
            }
        }
    }
}

/// The listing of a side without the late orders is the listing of the side with the
/// entries of the late orders left out.
proof fn lemma_kept_listing(l: Seq<(Seq<u8>, Seq<u8>)>, m: Entries, side: Seq<u8>, now: u64)
    requires
        is_listing(l, m, side),
        side == bid_side() || side == ask_side(),
    ensures
        is_listing(kept(l, now), without_late_orders(m, now), side),
{
    broadcast use vstd::seq_lib::group_filter_ensures;

    let pred = |e: (Seq<u8>, Seq<u8>)| not_late(e, now);
    let q = kept(l, now);
    let short = without_late_orders(m, now);
    lemma_kept_ascending(l, now);
    assert forall|i: int| 0 <= i < q.len() implies short.contains_key((side, (#[trigger] q[i]).0))
        && short[(side, q[i].0)] == q[i].1 by {
        assert(q.contains(q[i]));
        l.lemma_filter_contains_rev(pred, q[i]);
        let a = choose|a: int| 0 <= a < l.len() && l[a] == q[i];
        assert(m.contains_key((side, l[a].0)));
        assert(pred(q[i]));
        assert(!late_record(m, side, q[i].0, now));
        assert(!late_places(m, now).contains((side, q[i].0)));
    }
    assert forall|k: Seq<u8>| #[trigger] short.contains_key((side, k)) implies exists|i: int|
        0 <= i < q.len() && (#[trigger] q[i]).0 == k by {
        assert(m.contains_key((side, k)));
        assert(!late_places(m, now).contains((side, k)));
        assert(!late_record(m, side, k, now));
        let a = choose|a: int| 0 <= a < l.len() && (#[trigger] l[a]).0 == k;
        assert(m[(side, l[a].0)] == l[a].1);
        assert(pred(l[a]));
        assert(q.contains(l[a]));
        let i = choose|i: int| 0 <= i < q.len() && q[i] == l[a];
        assert(q[i].0 == k);
    }
}

/// One side of the book without the late orders shows the orders that the side
/// shows and that arrived before the tick; and it cannot be read where the side
/// cannot.
pub proof fn lemma_book_side_without_late(m: Entries, side: Seq<u8>, now: u64)
    requires
        listable(m, side),
        side == bid_side() || side == ask_side(),
    ensures
        listable(without_late_orders(m, now), side),
        book_side(without_late_orders(m, now), side) == match book_side(m, side) {
            Some(orders) => Some(early(orders, now)),
            None => None,
        },
{
    let short = without_late_orders(m, now);
    lemma_listing_lists(m, side);
    let l = listing(m, side);
    lemma_kept_listing(l, m, side, now);
    lemma_listing_unique(kept(l, now), short, side);
    lemma_kept_orders(l, now);
    if all_orders(l) {
        lemma_sorted_without_late(orders_of(l), now);
    }
}

/// The early orders of a list hold an order that arrived before the tick just when
/// the list does.
proof fn lemma_any_before_early(asks: Seq<OrderView>, now: u64)
    ensures
        any_before(early(asks, now), now) == any_before(asks, now),
{
    broadcast use vstd::seq_lib::group_filter_ensures;

    let by_tick = |o: OrderView| o.before(now);
    let e = early(asks, now);
    if any_before(asks, now) {
        let i = choose|i: int| 0 <= i < asks.len() && (#[trigger] asks[i]).before(now);
        assert(by_tick(asks[i]));
        assert(e.contains(asks[i]));
        let k = choose|k: int| 0 <= k < e.len() && e[k] == asks[i];
        assert(e[k].before(now));
    }
    if any_before(e, now) {
        let k = choose|k: int| 0 <= k < e.len() && (#[trigger] e[k]).before(now);
        assert(e.contains(e[k]));
        asks.lemma_filter_contains_rev(by_tick, e[k]);
        let i = choose|i: int| 0 <= i < asks.len() && asks[i] == e[k];
        assert(asks[i].before(now));
    }
}

/// No order that arrived at the tick of a match or later takes part in it: the match
/// on the store without these orders hands out, records and refuses what the match
/// on the store with them does.
pub proof fn lemma_match_without_late(m: Entries, sender: Seq<char>, now: u64)
    requires
        match_can_list(m, now),
    ensures
        match_outcome(without_late_orders(m, now), sender, now) == match_outcome(m, sender, now),
        match_can_list(without_late_orders(m, now), now),
{
    let short = without_late_orders(m, now);
    lemma_sides_apart();
    assert(config_of(short) == config_of(m));
    lemma_book_side_without_late(m, ask_side(), now);
    if book_side(m, ask_side()) is Some {
        let asks = book_side(m, ask_side())->Some_0;
        lemma_any_before_early(asks, now);
        if any_before(asks, now) {
            lemma_book_side_without_late(m, bid_side(), now);
            if book_side(m, bid_side()) is Some {
                let bids = book_side(m, bid_side())->Some_0;
                lemma_sweep_without_late(bids, asks, now);
            }
        }
    }
}

/// Updates that write to none of the places `gone` come to the same whether these
/// places are cleared before or after.
pub proof fn lemma_applied_without(m: Entries, us: Seq<UpdateView>, gone: Set<(Seq<u8>, Seq<u8>)>)
    requires
        forall|k: int| 0 <= k < us.len() ==> !gone.contains(place_of(#[trigger] us[k])),
    ensures
        applied(m.remove_keys(gone), us) == applied(m, us).remove_keys(gone),
    decreases us.len(),
{
    if us.len() > 0 {
        let init = us.drop_last();
        assert forall|k: int| 0 <= k < init.len() implies !gone.contains(
            place_of(#[trigger] init[k]),
        ) by {
            assert(init[k] == us[k]);
        }
        lemma_applied_without(m, init, gone);
        assert(!gone.contains(place_of(us.last())));
        assert(applied(m.remove_keys(gone), us) =~= applied(m, us).remove_keys(gone));
    } else {
        assert(applied(m.remove_keys(gone), us) =~= applied(m, us).remove_keys(gone));
    }
}

/// A match leaves the store without the late orders as the match on the store
/// without them leaves it: what the match writes is the same, and it writes to none
/// of their places.
pub proof fn lemma_match_rest_without_late(m: Entries, sender: Seq<char>, now: u64)
    requires
        match_can_list(m, now),
        match_outcome(m, sender, now) is Ok,
    ensures
        match_outcome(without_late_orders(m, now), sender, now) == match_outcome(m, sender, now),
        applied(without_late_orders(m, now), match_outcome(m, sender, now)->Ok_0.updates)
            == applied(m, match_outcome(m, sender, now)->Ok_0.updates).remove_keys(
            late_places(m, now),
        ),
{
    let us = match_outcome(m, sender, now)->Ok_0.updates;
    let gone = late_places(m, now);
    lemma_match_without_late(m, sender, now);
    assert forall|k: int| 0 <= k < us.len() implies !gone.contains(place_of(#[trigger] us[k])) by {
        let at = place_of(us[k]);
        if late_record(m, at.0, at.1, now) {
            lemma_updates_miss_late_orders(m, sender, now, at.0, at.1);
        }
    }
    lemma_applied_without(m, us, gone);
}

/// The store `after` a match on the store `before` is, but for the orders that
/// arrived at the tick or later, what the match on `before` without these orders
/// leaves; and that match hands out, records and refuses the same.
pub open spec fn same_without_late(
    before: Entries,
    after: Entries,
    sender: Seq<char>,
    now: u64,
) -> bool {
    let short = without_late_orders(before, now);
    &&& match_outcome(short, sender, now) == match_outcome(before, sender, now)
    &&& applied(short, match_outcome(short, sender, now)->Ok_0.updates) == after.remove_keys(
        late_places(before, now),
    )
}

} // verus!
