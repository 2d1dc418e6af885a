//! What holds of every sweep, whatever the orders: it stays within its tick, and
//! it keeps orders that are in form in form.

use vstd::prelude::*;
use crate::error::ErrorView;
use crate::matching::{
    ask_in_form, bid_in_form, lemma_match_creates_no_value, lemma_match_keeps_form,
    lemma_match_keeps_identity, matched,
};
use crate::state::OrderView;
use crate::sweep::{
    crosses, filled, fresh, match_attribute, recorded, swept, swept_from, SweepView, UpdateView,
};

verus! {

/// Two records of one order: they differ at most in what is left of its funds and
/// proceeds.
pub open spec fn same_order(a: OrderView, b: OrderView) -> bool {
    &&& a.id == b.id
    &&& a.price == b.price
    &&& a.ts == b.ts
    &&& a.owner == b.owner
    &&& a.funds_denom == b.funds_denom
}

/// `o` is a record of one of the orders of `pool`.
pub open spec fn known(o: OrderView, pool: Seq<OrderView>) -> bool {
    exists|k: int| 0 <= k < pool.len() && same_order(#[trigger] pool[k], o)
}

/// `who` owns an order of `pool` that arrived before the tick `now`.
pub open spec fn early_owner(who: Seq<char>, pool: Seq<OrderView>, now: u64) -> bool {
    exists|k: int| 0 <= k < pool.len() && (#[trigger] pool[k]).before(now) && pool[k].owner == who
}

/// The entry `k` of the audit trail of a sweep names the two orders of the pair `k`
/// of its updates: first comes the update of the ask, then that of the bid.
pub open spec fn names_pair(st: SweepView, k: int) -> bool {
    &&& !st.updates[2 * k].is_bid
    &&& st.updates[2 * k + 1].is_bid
    &&& st.attributes[k] == match_attribute(
        st.updates[2 * k + 1].order.id,
        st.updates[2 * k].order.id,
    )
}

/// The updates of a sweep come in pairs, one pair for each entry of the audit trail,
/// and each entry names the two orders of its pair.
pub open spec fn paired(st: SweepView) -> bool {
    &&& st.updates.len() == 2 * st.attributes.len()
    &&& forall|k: int| 0 <= k < st.attributes.len() ==> #[trigger] names_pair(st, k)
}

/// A sweep of the bids `bids` and the asks `asks` at the tick `now` has touched only
/// what it may: every update is a record of an order that arrived before the tick,
/// on its own side; every entry of the audit trail names the two orders of a pair of
/// updates; every transfer goes to the owner of an order that arrived before the
/// tick; the bids in hand are records of the bids it began with; and the bids that
/// arrived at the tick or later are in hand as they were.
pub open spec fn within_tick(
    st: SweepView,
    bids: Seq<OrderView>,
    asks: Seq<OrderView>,
    now: u64,
) -> bool {
    &&& forall|k: int|
        0 <= k < st.updates.len() ==> (#[trigger] st.updates[k]).order.before(now) && known(
            st.updates[k].order,
            if st.updates[k].is_bid {
                bids
            } else {
                asks
            },
        )
    &&& forall|k: int|
        0 <= k < st.messages.len() ==> early_owner((#[trigger] st.messages[k]).to_address, bids, now)
            || early_owner(st.messages[k].to_address, asks, now)
    &&& forall|k: int| 0 <= k < st.bids.len() ==> known(#[trigger] st.bids[k], bids)
    &&& forall|k: int|
        0 <= k < bids.len() && !(#[trigger] bids[k]).before(now) ==> st.bids.contains(bids[k])
    &&& paired(st)
}

/// A record of a known order is known.
proof fn lemma_known_again(a: OrderView, b: OrderView, pool: Seq<OrderView>)
    requires
        known(a, pool),
        same_order(a, b),
    ensures
        known(b, pool),
{
    let k = choose|k: int| 0 <= k < pool.len() && same_order(#[trigger] pool[k], a);
    assert(same_order(pool[k], b));
}

/// The owner of a known order that arrived before the tick is an early owner.
proof fn lemma_known_owner(a: OrderView, pool: Seq<OrderView>, now: u64)
    requires
        known(a, pool),
        a.before(now),
    ensures
        early_owner(a.owner, pool, now),
{
    let k = choose|k: int| 0 <= k < pool.len() && same_order(#[trigger] pool[k], a);
    assert(pool[k].before(now) && pool[k].owner == a.owner);
}

/// One match of an ask that arrived before the tick keeps a sweep within the tick.
proof fn lemma_recorded_within_tick(
    st: SweepView,
    j: int,
    ask: OrderView,
    bids: Seq<OrderView>,
    asks: Seq<OrderView>,
    now: u64,
)
    requires
        within_tick(st, bids, asks, now),
        0 <= j < st.bids.len(),
        crosses(st.bids[j], ask, now),
        known(ask, asks),
        ask.before(now),
    ensures
        within_tick(
            recorded(st, j, matched(st.bids[j], ask), st.bids[j].id, ask.id),
            bids,
            asks,
            now,
        ),
        known(matched(st.bids[j], ask).ask, asks),
        matched(st.bids[j], ask).ask.before(now),
{
    let bid = st.bids[j];
    let m = matched(bid, ask);
    let next = recorded(st, j, m, bid.id, ask.id);
    lemma_match_keeps_identity(bid, ask);
    lemma_match_creates_no_value(bid, ask);
    assert(same_order(bid, m.bid));
    assert(same_order(ask, m.ask));
    assert(known(bid, bids));
    lemma_known_again(bid, m.bid, bids);
    lemma_known_again(ask, m.ask, asks);
    lemma_known_owner(bid, bids, now);
    lemma_known_owner(ask, asks, now);
    assert forall|k: int| 0 <= k < next.updates.len() implies (#[trigger] next.updates[k]).order.before(
        now,
    ) && known(
        next.updates[k].order,
        if next.updates[k].is_bid {
            bids
        } else {
            asks
        },
    ) by {
        if k < st.updates.len() {
            assert(next.updates[k] == st.updates[k]);
        }
    }
    let n = st.updates.len() as int;
    assert(next.updates.len() == n + 2);
    assert(next.attributes.len() == st.attributes.len() + 1);
    assert(next.updates[n] == UpdateView { is_bid: false, order: m.ask });
    assert(next.updates[n + 1] == UpdateView { is_bid: true, order: m.bid });
    assert(next.attributes[st.attributes.len() as int] == match_attribute(bid.id, ask.id));
    assert forall|k: int| 0 <= k < next.attributes.len() implies #[trigger] names_pair(
        next,
        k,
    ) by {
        if k < st.attributes.len() {
            assert(names_pair(st, k));
            assert(st.attributes[k] == next.attributes[k]);
            assert(next.updates[2 * k] == st.updates[2 * k]);
            assert(next.updates[2 * k + 1] == st.updates[2 * k + 1]);
        } else {
            assert(2 * k == n);
        }
    }
    assert forall|k: int| 0 <= k < next.messages.len() implies early_owner(
        (#[trigger] next.messages[k]).to_address,
        bids,
        now,
    ) || early_owner(next.messages[k].to_address, asks, now) by {
        if k < st.messages.len() {
            assert(next.messages[k] == st.messages[k]);
        } else {
            let i = k - st.messages.len();
            assert(next.messages[k] == m.msgs[i]);
            assert(m.msgs[i].to_address == ask.owner || m.msgs[i].to_address == bid.owner);
        }
    }
    assert forall|k: int| 0 <= k < next.bids.len() implies known(#[trigger] next.bids[k], bids) by {
        if m.bid.is_closed() {
            if k < j {
                assert(next.bids[k] == st.bids[k]);
            } else {
                assert(next.bids[k] == st.bids[k + 1]);
            }
        } else {
            if k != j {
                assert(next.bids[k] == st.bids[k]);
            }
        }
    }
    assert forall|k: int| 0 <= k < bids.len() && !(#[trigger] bids[k]).before(now) implies next.bids.contains(
        bids[k],
    ) by {
        assert(st.bids.contains(bids[k]));
        let i = choose|i: int| 0 <= i < st.bids.len() && st.bids[i] == bids[k];
        assert(i != j);
        if m.bid.is_closed() {
            if i < j {
                assert(next.bids[i] == bids[k]);
            } else {
                assert(next.bids[i - 1] == bids[k]);
            }
        } else {
            assert(next.bids[i] == bids[k]);
        }
    }
}

/// Filling an ask that arrived before the tick keeps a sweep within the tick.
pub proof fn lemma_filled_within_tick(
    ask: OrderView,
    j: int,
    st: SweepView,
    bids: Seq<OrderView>,
    asks: Seq<OrderView>,
    now: u64,
)
    requires
        within_tick(st, bids, asks, now),
        known(ask, asks),
        ask.before(now),
        filled(ask, j, st, now) is Ok,
    ensures
        within_tick(filled(ask, j, st, now)->Ok_0, bids, asks, now),
    decreases st.bids.len() - j,
{
    if j < 0 || j >= st.bids.len() {
    } else if !crosses(st.bids[j], ask, now) {
        lemma_filled_within_tick(ask, j + 1, st, bids, asks, now);
    } else {
        let m = matched(st.bids[j], ask);
        let next = recorded(st, j, m, st.bids[j].id, ask.id);
        lemma_recorded_within_tick(st, j, ask, bids, asks, now);
        if m.ask.is_closed() {
        } else if m.bid.is_closed() {
            lemma_filled_within_tick(m.ask, j, next, bids, asks, now);
        } else {
            lemma_filled_within_tick(m.ask, j + 1, next, bids, asks, now);
        }
    }
}

/// Sweeping on from any ask keeps a sweep within the tick.
pub proof fn lemma_swept_from_within_tick(
    asks: Seq<OrderView>,
    i: int,
    st: SweepView,
    bids: Seq<OrderView>,
    now: u64,
)
    requires
        within_tick(st, bids, asks, now),
        swept_from(asks, i, st, now) is Ok,
    ensures
        within_tick(swept_from(asks, i, st, now)->Ok_0, bids, asks, now),
    decreases asks.len() - i,
{
    if i < 0 || i >= asks.len() {
    } else if !asks[i].before(now) {
        lemma_swept_from_within_tick(asks, i + 1, st, bids, now);
    } else {
        assert(same_order(asks[i], asks[i]));
        lemma_filled_within_tick(asks[i], 0, st, bids, asks, now);
        lemma_swept_from_within_tick(asks, i + 1, filled(asks[i], 0, st, now)->Ok_0, bids, now);
    }
}

/// No order that arrived at the tick of a sweep or later takes part in it: each
/// update is a record of an order that arrived before the tick, each transfer goes
/// to the owner of such an order, and the later bids are in hand as they were.
pub proof fn lemma_sweep_within_tick(bids: Seq<OrderView>, asks: Seq<OrderView>, now: u64)
    requires
        swept(bids, asks, now) is Ok,
    ensures
        within_tick(swept(bids, asks, now)->Ok_0, bids, asks, now),
{
    let st = fresh(bids);
    assert forall|k: int| 0 <= k < st.bids.len() implies known(#[trigger] st.bids[k], bids) by {
        assert(same_order(bids[k], st.bids[k]));
    }
    lemma_swept_from_within_tick(asks, 0, st, bids, now);
}

/// A sweep in which no ask arrived before the tick matches nothing.
pub proof fn lemma_quiet_sweep(asks: Seq<OrderView>, i: int, st: SweepView, now: u64)
    requires
        forall|k: int| 0 <= k < asks.len() ==> !(#[trigger] asks[k]).before(now),
    ensures
        swept_from(asks, i, st, now) == Ok::<SweepView, ErrorView>(st),
    decreases asks.len() - i,
{
    if 0 <= i < asks.len() {
        lemma_quiet_sweep(asks, i + 1, st, now);
    }
}

/// The order of an update is in form on its own side.
pub open spec fn update_in_form(u: UpdateView, increment: u128) -> bool {
    if u.is_bid {
        bid_in_form(u.order, increment)
    } else {
        ask_in_form(u.order, increment)
    }
}

/// A sweep has kept its orders in form: the bids in hand and the orders of the
/// updates are in form, and the updates come in pairs, one for each match, the ask
/// before the bid and one of the two closed.
pub open spec fn kept_in_form(st: SweepView, increment: u128) -> bool {
    &&& forall|k: int| 0 <= k < st.bids.len() ==> bid_in_form(#[trigger] st.bids[k], increment)
    &&& forall|k: int|
        0 <= k < st.updates.len() ==> update_in_form(#[trigger] st.updates[k], increment)
    &&& st.updates.len() % 2 == 0
    &&& forall|k: int|
        0 <= k < st.updates.len() && k % 2 == 0 ==> {
            &&& !(#[trigger] st.updates[k]).is_bid
            &&& st.updates[k + 1].is_bid
            &&& st.updates[k].order.is_closed() || st.updates[k + 1].order.is_closed()
        }
}

/// One match of an ask that is in form keeps a sweep in form, and closes the bid or
/// the ask.
proof fn lemma_recorded_kept_in_form(
    st: SweepView,
    j: int,
    ask: OrderView,
    increment: u128,
    now: u64,
)
    requires
        kept_in_form(st, increment),
        increment > 0,
        0 <= j < st.bids.len(),
        crosses(st.bids[j], ask, now),
        ask_in_form(ask, increment),
    ensures
        kept_in_form(
            recorded(st, j, matched(st.bids[j], ask), st.bids[j].id, ask.id),
            increment,
        ),
        ask_in_form(matched(st.bids[j], ask).ask, increment),
        matched(st.bids[j], ask).ask.is_closed() || matched(st.bids[j], ask).bid.is_closed(),
{
    let bid = st.bids[j];
    let m = matched(bid, ask);
    let next = recorded(st, j, m, bid.id, ask.id);
    lemma_match_keeps_form(bid, ask, increment);
    assert forall|k: int| 0 <= k < next.bids.len() implies bid_in_form(
        #[trigger] next.bids[k],
        increment,
    ) by {
        if m.bid.is_closed() {
            if k < j {
                assert(next.bids[k] == st.bids[k]);
            } else {
                assert(next.bids[k] == st.bids[k + 1]);
            }
        } else {
            if k != j {
                assert(next.bids[k] == st.bids[k]);
            }
        }
    }
    assert forall|k: int| 0 <= k < next.updates.len() implies update_in_form(
        #[trigger] next.updates[k],
        increment,
    ) by {
        if k < st.updates.len() {
            assert(next.updates[k] == st.updates[k]);
        }
    }
    assert forall|k: int| 0 <= k < next.updates.len() && k % 2 == 0 implies {
        &&& !(#[trigger] next.updates[k]).is_bid
        &&& next.updates[k + 1].is_bid
        &&& next.updates[k].order.is_closed() || next.updates[k + 1].order.is_closed()
    } by {
        if k < st.updates.len() {
            assert(next.updates[k] == st.updates[k]);
            assert(next.updates[k + 1] == st.updates[k + 1]);
        }
    }
}

/// Filling an ask that is in form keeps a sweep in form.
pub proof fn lemma_filled_kept_in_form(
    ask: OrderView,
    j: int,
    st: SweepView,
    increment: u128,
    now: u64,
)
    requires
        kept_in_form(st, increment),
        increment > 0,
        ask_in_form(ask, increment),
        filled(ask, j, st, now) is Ok,
    ensures
        kept_in_form(filled(ask, j, st, now)->Ok_0, increment),
    decreases st.bids.len() - j,
{
    if j < 0 || j >= st.bids.len() {
    } else if !crosses(st.bids[j], ask, now) {
        lemma_filled_kept_in_form(ask, j + 1, st, increment, now);
    } else {
        let m = matched(st.bids[j], ask);
        let next = recorded(st, j, m, st.bids[j].id, ask.id);
        lemma_recorded_kept_in_form(st, j, ask, increment, now);
        if m.ask.is_closed() {
        } else if m.bid.is_closed() {
            lemma_filled_kept_in_form(m.ask, j, next, increment, now);
        } else {
            lemma_filled_kept_in_form(m.ask, j + 1, next, increment, now);
        }
    }
}

/// Sweeping on through asks that are in form keeps a sweep in form.
pub proof fn lemma_swept_from_kept_in_form(
    asks: Seq<OrderView>,
    i: int,
    st: SweepView,
    increment: u128,
    now: u64,
)
    requires
        kept_in_form(st, increment),
        increment > 0,
        forall|k: int| 0 <= k < asks.len() ==> ask_in_form(#[trigger] asks[k], increment),
        swept_from(asks, i, st, now) is Ok,
    ensures
        kept_in_form(swept_from(asks, i, st, now)->Ok_0, increment),
    decreases asks.len() - i,
{
    if i < 0 || i >= asks.len() {
    } else if !asks[i].before(now) {
        lemma_swept_from_kept_in_form(asks, i + 1, st, increment, now);
    } else {
        lemma_filled_kept_in_form(asks[i], 0, st, increment, now);
        lemma_swept_from_kept_in_form(
            asks,
            i + 1,
            filled(asks[i], 0, st, now)->Ok_0,
            increment,
            now,
        );
    }
}

/// Every match of a sweep of orders that are in form closes the bid or the ask,
/// and leaves what it does not close in form.
pub proof fn lemma_sweep_kept_in_form(
    bids: Seq<OrderView>,
    asks: Seq<OrderView>,
    increment: u128,
    now: u64,
)
    requires
        increment > 0,
        forall|k: int| 0 <= k < bids.len() ==> bid_in_form(#[trigger] bids[k], increment),
        forall|k: int| 0 <= k < asks.len() ==> ask_in_form(#[trigger] asks[k], increment),
        swept(bids, asks, now) is Ok,
    ensures
        kept_in_form(swept(bids, asks, now)->Ok_0, increment),
{
    lemma_swept_from_kept_in_form(asks, 0, fresh(bids), increment, now);
}

} // verus!
