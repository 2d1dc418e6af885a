//! What holds of the book in the store through every operation: it stays sound,
//! it pays no admin, it spares the orders of the current tick.

use vstd::prelude::*;
use vstd::utf8::encode_utf8;
use crate::book::{
    book_side, config_of, config_place, config_side, filed, orders_of, place, updated,
};
use crate::codec::{
    ask_side, bid_side, lemma_order_read_is_written, lemma_order_round_trip,
    lemma_state_round_trip, order_bytes, order_of, state_bytes,
};
use crate::contract::{any_before, applied, match_outcome, side_of};
use crate::ingest::{ask_ingest, bid_ingest, lemma_filed_ask_is_integral, lemma_filed_bid_is_integral};
use crate::invariants::{
    early_owner, known, lemma_quiet_sweep, lemma_sweep_kept_in_form, lemma_sweep_within_tick,
    names_pair, same_order, update_in_form,
};
use crate::matching::{ask_in_form, bid_in_form};
use crate::error::{ErrorView, StoreError};
use crate::msg::{MessageInfoView, TransferView};
use crate::ranking::lemma_sorted_same_orders;
use crate::state::{OrderView, StateView};
use crate::store::{
    is_listing, lemma_listable_insert, lemma_listable_remove, lemma_listing_lists, listable,
    lemma_listing_unique, listing, Entries,
};
use crate::sweep::{fresh, match_attribute, swept, SweepView, UpdateView};

verus! {

/// `o` is in form as an order of the side `side` of a book configured as `cfg`: its
/// funds are in the denomination of its side, and it is covered in whole increments
/// (a bid holds the quote that what it is owed costs at its price, an ask the base
/// that what it is owed buys).
pub open spec fn in_form_on(o: OrderView, side: Seq<u8>, cfg: StateView) -> bool {
    if side == bid_side() {
        bid_in_form(o, cfg.ask_increment) && o.funds_denom == cfg.bid_denom
    } else {
        ask_in_form(o, cfg.ask_increment) && o.funds_denom == cfg.ask_denom
    }
}

/// `value` under `key` is the record of an order that is sound on the side `side` of
/// a book configured as `cfg`: it is open, the admin does not own it, and it is in
/// form.
pub open spec fn sound_record(key: Seq<u8>, value: Seq<u8>, side: Seq<u8>, cfg: StateView) -> bool {
    &&& order_of(key, value) is Some
    &&& !order_of(key, value)->Some_0.is_closed()
    &&& order_of(key, value)->Some_0.owner != cfg.contract_admin
    &&& in_form_on(order_of(key, value)->Some_0, side, cfg)
}

/// The side `side` of the book that `m` holds is sound: it can be listed, and each
/// of its records is sound.
pub open spec fn sound_side(m: Entries, side: Seq<u8>, cfg: StateView) -> bool {
    &&& listable(m, side)
    &&& forall|key: Seq<u8>| #[trigger]
        m.contains_key((side, key)) ==> sound_record(key, m[(side, key)], side, cfg)
}

/// The book that `m` holds is sound: it has a configuration, and both of its sides
/// hold nothing but open orders that are in form and that the admin does not own.
pub open spec fn sound_book(m: Entries) -> bool {
    &&& config_of(m) is Ok
    &&& sound_side(m, bid_side(), config_of(m)->Ok_0)
    &&& sound_side(m, ask_side(), config_of(m)->Ok_0)
}

/// The side `side` of the book that `m` holds can be read, and shows the order `o`.
pub open spec fn shows(m: Entries, side: Seq<u8>, o: OrderView) -> bool {
    book_side(m, side) is Some && book_side(m, side)->Some_0.contains(o)
}

/// `o` can be written to the side `side` of a sound book configured as `cfg`: the
/// admin does not own it, its owner's name is of a length that a record can hold,
/// and it is in form.
pub open spec fn storable(o: OrderView, side: Seq<u8>, cfg: StateView) -> bool {
    &&& o.owner != cfg.contract_admin
    &&& encode_utf8(o.owner).len() <= u64::MAX
    &&& in_form_on(o, side, cfg)
}

/// The three namespaces of a book are different from each other.
pub proof fn lemma_sides_apart()
    ensures
        bid_side() != ask_side(),
        bid_side() != config_side(),
        ask_side() != config_side(),
{
    assert(bid_side()[0] == 98u8 && ask_side()[0] == 97u8);
    assert(bid_side().len() == 3 && ask_side().len() == 3 && config_side().len() == 6);
}

/// Writing an order back to one side keeps a sound side sound, whichever side it is.
pub proof fn lemma_updated_keeps_side(
    m: Entries,
    side: Seq<u8>,
    cfg: StateView,
    to: Seq<u8>,
    o: OrderView,
)
    requires
        sound_side(m, side, cfg),
        storable(o, to, cfg),
    ensures
        sound_side(updated(m, to, o), side, cfg),
{
    let after = updated(m, to, o);
    if o.is_closed() {
        lemma_listable_remove(m, side, place(to, o.id));
    } else {
        lemma_listable_insert(m, side, place(to, o.id), order_bytes(o));
        lemma_order_round_trip(o);
    }
    assert forall|key: Seq<u8>| #[trigger] after.contains_key((side, key)) implies sound_record(
        key,
        after[(side, key)],
        side,
        cfg,
    ) by {
        if (side, key) != place(to, o.id) {
            assert(m.contains_key((side, key)));
        }
    }
}

/// Writing an order back leaves the configuration as it was.
pub proof fn lemma_updated_keeps_config(m: Entries, to: Seq<u8>, o: OrderView)
    requires
        to != config_side(),
    ensures
        config_of(updated(m, to, o)) == config_of(m),
{
}

/// Writing back an order that can be stored keeps a sound book sound.
pub proof fn lemma_updated_keeps_book(m: Entries, u: UpdateView)
    requires
        sound_book(m),
        storable(u.order, side_of(u), config_of(m)->Ok_0),
    ensures
        sound_book(updated(m, side_of(u), u.order)),
{
    let cfg = config_of(m)->Ok_0;
    lemma_sides_apart();
    lemma_updated_keeps_config(m, side_of(u), u.order);
    lemma_updated_keeps_side(m, bid_side(), cfg, side_of(u), u.order);
    lemma_updated_keeps_side(m, ask_side(), cfg, side_of(u), u.order);
}

/// Writing back orders that can be stored keeps a sound book sound.
pub proof fn lemma_applied_keeps_book(m: Entries, us: Seq<UpdateView>)
    requires
        sound_book(m),
        forall|k: int|
            0 <= k < us.len() ==> storable(
                (#[trigger] us[k]).order,
                side_of(us[k]),
                config_of(m)->Ok_0,
            ),
    ensures
        sound_book(applied(m, us)),
        config_of(applied(m, us)) == config_of(m),
    decreases us.len(),
{
    if us.len() > 0 {
        let init = us.drop_last();
        assert forall|k: int| 0 <= k < init.len() implies storable(
            (#[trigger] init[k]).order,
            side_of(init[k]),
            config_of(m)->Ok_0,
        ) by {
            assert(init[k] == us[k]);
        }
        lemma_applied_keeps_book(m, init);
        lemma_sides_apart();
        lemma_updated_keeps_config(applied(m, init), side_of(us.last()), us.last().order);
        lemma_updated_keeps_book(applied(m, init), us.last());
    }
}

/// What a side that can be read files: every order on file stands in the store
/// under its id as its record, and its owner's name is of a length that a record can
/// hold.
pub proof fn lemma_filed_stands(m: Entries, side: Seq<u8>)
    requires
        listable(m, side),
        filed(m, side) is Some,
    ensures
        forall|k: int|
            0 <= k < filed(m, side)->Some_0.len() ==> {
                let o = #[trigger] filed(m, side)->Some_0[k];
                &&& m.contains_key(place(side, o.id))
                &&& m[place(side, o.id)] == order_bytes(o)
                &&& encode_utf8(o.owner).len() <= u64::MAX
            },
{
    lemma_listing_lists(m, side);
    let l = listing(m, side);
    assert forall|k: int| 0 <= k < orders_of(l).len() implies {
        let o = #[trigger] orders_of(l)[k];
        &&& m.contains_key(place(side, o.id))
        &&& m[place(side, o.id)] == order_bytes(o)
        &&& encode_utf8(o.owner).len() <= u64::MAX
    } by {
        assert(m.contains_key((side, l[k].0)));
        lemma_order_read_is_written(l[k].0, l[k].1);
    }
}

/// The order on file that a record of a known order of a side belongs to.
proof fn lemma_known_stands(m: Entries, side: Seq<u8>, o: OrderView) -> (x: OrderView)
    requires
        listable(m, side),
        book_side(m, side) is Some,
        known(o, book_side(m, side)->Some_0),
    ensures
        same_order(x, o),
        m.contains_key(place(side, x.id)),
        m[place(side, x.id)] == order_bytes(x),
        encode_utf8(x.owner).len() <= u64::MAX,
{
    let pool = book_side(m, side)->Some_0;
    let on_file = filed(m, side)->Some_0;
    let k = choose|k: int| 0 <= k < pool.len() && same_order(#[trigger] pool[k], o);
    let x = pool[k];
    assert(pool.contains(x));
    lemma_sorted_same_orders(on_file, x);
    lemma_filed_stands(m, side);
    let i = choose|i: int| 0 <= i < on_file.len() && on_file[i] == x;
    assert(on_file[i] == x);
    x
}

/// What a sound side files: every order on file is open, can be stored, and stands
/// in the store under its id as its record.
pub proof fn lemma_sound_side_filed(m: Entries, side: Seq<u8>, cfg: StateView)
    requires
        sound_side(m, side, cfg),
    ensures
        filed(m, side) is Some,
        book_side(m, side) is Some,
        forall|k: int|
            0 <= k < filed(m, side)->Some_0.len() ==> {
                let o = #[trigger] filed(m, side)->Some_0[k];
                &&& !o.is_closed()
                &&& storable(o, side, cfg)
                &&& m.contains_key(place(side, o.id))
                &&& m[place(side, o.id)] == order_bytes(o)
            },
{
    lemma_listing_lists(m, side);
    let l = listing(m, side);
    assert forall|i: int| 0 <= i < l.len() implies order_of((#[trigger] l[i]).0, l[i].1) is Some by {
        assert(m.contains_key((side, l[i].0)));
    }
    assert forall|k: int| 0 <= k < orders_of(l).len() implies {
        let o = #[trigger] orders_of(l)[k];
        &&& !o.is_closed()
        &&& storable(o, side, cfg)
        &&& m.contains_key(place(side, o.id))
        &&& m[place(side, o.id)] == order_bytes(o)
    } by {
        assert(m.contains_key((side, l[k].0)));
        lemma_order_read_is_written(l[k].0, l[k].1);
    }
}

/// Every order of a sound side of the book, as the book shows it, is open, can be
/// stored, and stands in the store under its id as its record.
pub proof fn lemma_sound_side_shown(m: Entries, side: Seq<u8>, cfg: StateView, o: OrderView)
    requires
        sound_side(m, side, cfg),
        book_side(m, side)->Some_0.contains(o),
    ensures
        !o.is_closed(),
        storable(o, side, cfg),
        m.contains_key(place(side, o.id)),
        m[place(side, o.id)] == order_bytes(o),
{
    lemma_sound_side_filed(m, side, cfg);
    let on_file = filed(m, side)->Some_0;
    lemma_sorted_same_orders(on_file, o);
    let k = choose|k: int| 0 <= k < on_file.len() && on_file[k] == o;
    assert(on_file[k] == o);
}

/// What a record of a known order of a sound side shares with the order on file.
proof fn lemma_known_on_side(m: Entries, side: Seq<u8>, cfg: StateView, o: OrderView) -> (x:
    OrderView)
    requires
        sound_side(m, side, cfg),
        known(o, book_side(m, side)->Some_0),
    ensures
        same_order(x, o),
        storable(x, side, cfg),
        m.contains_key(place(side, x.id)),
        m[place(side, x.id)] == order_bytes(x),
{
    let pool = book_side(m, side)->Some_0;
    let k = choose|k: int| 0 <= k < pool.len() && same_order(#[trigger] pool[k], o);
    let x = pool[k];
    assert(pool.contains(x));
    lemma_sound_side_shown(m, side, cfg, x);
    x
}

/// A match keeps a sound book sound: afterwards the book still holds nothing but
/// open orders that the admin does not own, under the configuration it had.
pub proof fn lemma_match_keeps_book(m: Entries, sender: Seq<char>, now: u64)
    requires
        sound_book(m),
        match_outcome(m, sender, now) is Ok,
    ensures
        sound_book(applied(m, match_outcome(m, sender, now)->Ok_0.updates)),
        config_of(applied(m, match_outcome(m, sender, now)->Ok_0.updates)) == config_of(m),
{
    let cfg = config_of(m)->Ok_0;
    let us = match_outcome(m, sender, now)->Ok_0.updates;
    if us.len() > 0 {
        let asks = book_side(m, ask_side())->Some_0;
        let bids = book_side(m, bid_side())->Some_0;
        lemma_sweep_within_tick(bids, asks, now);
        lemma_shown_orders_in_form(m);
        lemma_sweep_kept_in_form(bids, asks, cfg.ask_increment, now);
        lemma_sides_apart();
        assert forall|k: int| 0 <= k < us.len() implies storable(
            (#[trigger] us[k]).order,
            side_of(us[k]),
            cfg,
        ) by {
            assert(update_in_form(us[k], cfg.ask_increment));
            if us[k].is_bid {
                let x = lemma_known_on_side(m, bid_side(), cfg, us[k].order);
            } else {
                let x = lemma_known_on_side(m, ask_side(), cfg, us[k].order);
            }
        }
    }
    lemma_applied_keeps_book(m, us);
}

/// The orders that a sound book shows are in form, and its increment is above zero.
pub proof fn lemma_shown_orders_in_form(m: Entries)
    requires
        sound_book(m),
    ensures
        config_of(m)->Ok_0.ask_increment > 0,
        forall|k: int|
            0 <= k < book_side(m, bid_side())->Some_0.len() ==> bid_in_form(
                #[trigger] book_side(m, bid_side())->Some_0[k],
                config_of(m)->Ok_0.ask_increment,
            ),
        forall|k: int|
            0 <= k < book_side(m, ask_side())->Some_0.len() ==> ask_in_form(
                #[trigger] book_side(m, ask_side())->Some_0[k],
                config_of(m)->Ok_0.ask_increment,
            ),
{
    let cfg = config_of(m)->Ok_0;
    let bids = book_side(m, bid_side())->Some_0;
    let asks = book_side(m, ask_side())->Some_0;
    lemma_sides_apart();
    assert forall|k: int| 0 <= k < bids.len() implies bid_in_form(
        #[trigger] bids[k],
        cfg.ask_increment,
    ) by {
        assert(bids.contains(bids[k]));
        lemma_sound_side_shown(m, bid_side(), cfg, bids[k]);
    }
    assert forall|k: int| 0 <= k < asks.len() implies ask_in_form(
        #[trigger] asks[k],
        cfg.ask_increment,
    ) by {
        assert(asks.contains(asks[k]));
        lemma_sound_side_shown(m, ask_side(), cfg, asks[k]);
    }
}

/// Every match of a match on a sound book closes the bid or the ask: the updates
/// come in pairs, the ask before the bid, and one of each pair is closed.
pub proof fn lemma_match_closes_one_of_each_pair(m: Entries, sender: Seq<char>, now: u64)
    requires
        sound_book(m),
        match_outcome(m, sender, now) is Ok,
    ensures
        ({
            let us = match_outcome(m, sender, now)->Ok_0.updates;
            &&& us.len() % 2 == 0
            &&& forall|k: int|
                0 <= k < us.len() && k % 2 == 0 ==> {
                    &&& !(#[trigger] us[k]).is_bid
                    &&& us[k + 1].is_bid
                    &&& us[k].order.is_closed() || us[k + 1].order.is_closed()
                }
        }),
{
    let cfg = config_of(m)->Ok_0;
    let us = match_outcome(m, sender, now)->Ok_0.updates;
    if us.len() > 0 {
        let asks = book_side(m, ask_side())->Some_0;
        let bids = book_side(m, bid_side())->Some_0;
        lemma_shown_orders_in_form(m);
        lemma_sweep_kept_in_form(bids, asks, cfg.ask_increment, now);
    }
}

/// The admin of a sound book gets nothing out of a match: no transfer goes to it.
pub proof fn lemma_match_pays_no_admin(m: Entries, sender: Seq<char>, now: u64)
    requires
        sound_book(m),
        match_outcome(m, sender, now) is Ok,
    ensures
        forall|k: int|
            0 <= k < match_outcome(m, sender, now)->Ok_0.response.messages.len() ==> (
            #[trigger] match_outcome(m, sender, now)->Ok_0.response.messages[k]).to_address
                != config_of(m)->Ok_0.contract_admin,
{
    let cfg = config_of(m)->Ok_0;
    let admin = cfg.contract_admin;
    let msgs = match_outcome(m, sender, now)->Ok_0.response.messages;
    if msgs.len() > 0 {
        let asks = book_side(m, ask_side())->Some_0;
        let bids = book_side(m, bid_side())->Some_0;
        lemma_sweep_within_tick(bids, asks, now);
        assert forall|k: int| 0 <= k < msgs.len() implies (#[trigger] msgs[k]).to_address
            != admin by {
            let who = msgs[k].to_address;
            if early_owner(who, bids, now) {
                let i = choose|i: int|
                    0 <= i < bids.len() && (#[trigger] bids[i]).before(now) && bids[i].owner == who;
                assert(bids.contains(bids[i]));
                lemma_sound_side_shown(m, bid_side(), cfg, bids[i]);
            } else {
                let i = choose|i: int|
                    0 <= i < asks.len() && (#[trigger] asks[i]).before(now) && asks[i].owner == who;
                assert(asks.contains(asks[i]));
                lemma_sound_side_shown(m, ask_side(), cfg, asks[i]);
            }
        }
    }
}

/// The place in the store that an update writes to.
pub open spec fn place_of(u: UpdateView) -> (Seq<u8>, Seq<u8>) {
    place(side_of(u), u.order.id)
}

/// Updates leave alone every place that none of them writes to.
pub proof fn lemma_applied_elsewhere(m: Entries, us: Seq<UpdateView>, at: (Seq<u8>, Seq<u8>))
    requires
        forall|k: int| 0 <= k < us.len() ==> place_of(#[trigger] us[k]) != at,
    ensures
        applied(m, us).contains_key(at) == m.contains_key(at),
        m.contains_key(at) ==> applied(m, us)[at] == m[at],
    decreases us.len(),
{
    if us.len() > 0 {
        let init = us.drop_last();
        assert forall|k: int| 0 <= k < init.len() implies place_of(#[trigger] init[k]) != at by {
            assert(init[k] == us[k]);
        }
        lemma_applied_elsewhere(m, init, at);
        assert(place_of(us.last()) != at);
    }
}

/// What a match at the tick `now` reads of `m` can be listed: the asks, and the bids
/// too where an ask arrived before the tick.
pub open spec fn match_can_list(m: Entries, now: u64) -> bool {
    &&& listable(m, ask_side())
    &&& book_side(m, ask_side()) is Some && any_before(book_side(m, ask_side())->Some_0, now)
        ==> listable(m, bid_side())
}

/// Under `key` on the side `side`, `m` holds the record of an order that arrived at
/// the tick `now` or later.
pub open spec fn late_record(m: Entries, side: Seq<u8>, key: Seq<u8>, now: u64) -> bool {
    &&& side == bid_side() || side == ask_side()
    &&& m.contains_key((side, key))
    &&& order_of(key, m[(side, key)]) is Some
    &&& !order_of(key, m[(side, key)])->Some_0.before(now)
}

/// `after` holds every order that `before` holds and that arrived at the tick `now`
/// or later, as `before` holds it.
pub open spec fn spares_late(before: Entries, after: Entries, now: u64) -> bool {
    forall|side: Seq<u8>, key: Seq<u8>| #[trigger]
        late_record(before, side, key, now) ==> after.contains_key((side, key)) && after[(
            side,
            key,
        )] == before[(side, key)]
}

/// No update of a match writes to the place of an order that arrived at the tick of
/// the match or later.
pub proof fn lemma_updates_miss_late_orders(
    m: Entries,
    sender: Seq<char>,
    now: u64,
    side: Seq<u8>,
    key: Seq<u8>,
)
    requires
        match_can_list(m, now),
        match_outcome(m, sender, now) is Ok,
        late_record(m, side, key, now),
    ensures
        forall|k: int|
            0 <= k < match_outcome(m, sender, now)->Ok_0.updates.len() ==> place_of(
                #[trigger] match_outcome(m, sender, now)->Ok_0.updates[k],
            ) != (side, key),
{
    let us = match_outcome(m, sender, now)->Ok_0.updates;
    lemma_sides_apart();
    if us.len() > 0 {
        let asks = book_side(m, ask_side())->Some_0;
        let bids = book_side(m, bid_side())->Some_0;
        lemma_sweep_within_tick(bids, asks, now);
        assert forall|k: int| 0 <= k < us.len() implies place_of(#[trigger] us[k]) != (
            side,
            key,
        ) by {
            if place_of(us[k]) == (side, key) {
                let x = lemma_known_stands(m, side, us[k].order);
                lemma_order_round_trip(x);
                assert(order_of(key, m[(side, key)]) == Some(x));
                assert(x.ts == us[k].order.ts);
            }
        }
    }
}

/// No order that arrived at the tick of a match or later takes part in it: the match
/// leaves the record of every such order as it was.
pub proof fn lemma_match_spares_late_orders(m: Entries, sender: Seq<char>, now: u64)
    requires
        match_can_list(m, now),
        match_outcome(m, sender, now) is Ok,
    ensures
        spares_late(m, applied(m, match_outcome(m, sender, now)->Ok_0.updates), now),
{
    let us = match_outcome(m, sender, now)->Ok_0.updates;
    let after = applied(m, us);
    assert forall|side: Seq<u8>, key: Seq<u8>| #[trigger]
        late_record(m, side, key, now) implies after.contains_key((side, key)) && after[(
        side,
        key,
    )] == m[(side, key)] by {
        lemma_updates_miss_late_orders(m, sender, now, side, key);
        lemma_applied_elsewhere(m, us, (side, key));
    }
}

/// The entry `k` of the audit trail `attributes` names the bid of the update
/// `2 * k + 1` and the ask of the update `2 * k` of `us`, both of which arrived
/// before the tick `now`, and neither of which is an order that `m` holds and that
/// arrived at the tick or later.
pub open spec fn names_early_pair(
    m: Entries,
    attributes: Seq<(Seq<char>, Seq<char>)>,
    us: Seq<UpdateView>,
    now: u64,
    k: int,
) -> bool {
    let ask = us[2 * k];
    let bid = us[2 * k + 1];
    &&& 2 * k + 1 < us.len()
    &&& !ask.is_bid && bid.is_bid
    &&& attributes[k] == match_attribute(bid.order.id, ask.order.id)
    &&& ask.order.before(now) && bid.order.before(now)
    &&& forall|key: Seq<u8>| #[trigger]
        late_record(m, bid_side(), key, now) ==> key != encode_utf8(bid.order.id)
    &&& forall|key: Seq<u8>| #[trigger]
        late_record(m, ask_side(), key, now) ==> key != encode_utf8(ask.order.id)
}

/// Every entry of the audit trail names a pair of orders that arrived before the
/// tick `now`, and no order that `m` holds and that arrived at the tick or later.
pub open spec fn names_no_late(
    m: Entries,
    attributes: Seq<(Seq<char>, Seq<char>)>,
    us: Seq<UpdateView>,
    now: u64,
) -> bool {
    &&& us.len() == 2 * attributes.len()
    &&& forall|k: int|
        0 <= k < attributes.len() ==> #[trigger] names_early_pair(m, attributes, us, now, k)
}

/// No entry of the audit trail of a match names an order that arrived at the tick of
/// the match or later: each names the bid and the ask of one pair of updates, which
/// are records of orders that arrived before the tick.
pub proof fn lemma_match_names_no_late_order(m: Entries, sender: Seq<char>, now: u64)
    requires
        match_can_list(m, now),
        match_outcome(m, sender, now) is Ok,
    ensures
        names_no_late(
            m,
            match_outcome(m, sender, now)->Ok_0.response.attributes,
            match_outcome(m, sender, now)->Ok_0.updates,
            now,
        ),
{
    let out = match_outcome(m, sender, now)->Ok_0;
    let us = out.updates;
    let attributes = out.response.attributes;
    if us.len() > 0 || attributes.len() > 0 {
        let asks = book_side(m, ask_side())->Some_0;
        let bids = book_side(m, bid_side())->Some_0;
        lemma_sweep_within_tick(bids, asks, now);
        let sv = swept(bids, asks, now)->Ok_0;
        assert forall|k: int| 0 <= k < attributes.len() implies #[trigger] names_early_pair(
            m,
            attributes,
            us,
            now,
            k,
        ) by {
            assert(names_pair(sv, k));
            let ask = us[2 * k];
            let bid = us[2 * k + 1];
            assert forall|key: Seq<u8>| #[trigger]
                late_record(m, bid_side(), key, now) implies key != encode_utf8(
                bid.order.id,
            ) by {
                lemma_updates_miss_late_orders(m, sender, now, bid_side(), key);
                assert(place_of(us[2 * k + 1]) != (bid_side(), key));
            }
            assert forall|key: Seq<u8>| #[trigger]
                late_record(m, ask_side(), key, now) implies key != encode_utf8(
                ask.order.id,
            ) by {
                lemma_updates_miss_late_orders(m, sender, now, ask_side(), key);
                assert(place_of(us[2 * k]) != (ask_side(), key));
            }
        }
    }
}

/// An order that has been stored is read back as it was stored: wherever its side
/// can be read, the side shows it.
pub proof fn lemma_stored_order_is_shown(m: Entries, side: Seq<u8>, o: OrderView)
    requires
        encode_utf8(o.owner).len() <= u64::MAX,
        listable(m.insert(place(side, o.id), order_bytes(o)), side),
        book_side(m.insert(place(side, o.id), order_bytes(o)), side) is Some,
    ensures
        shows(m.insert(place(side, o.id), order_bytes(o)), side, o),
{
    let after = m.insert(place(side, o.id), order_bytes(o));
    lemma_listing_lists(after, side);
    let l = listing(after, side);
    let key = encode_utf8(o.id);
    assert(after.contains_key((side, key)));
    let i = choose|i: int| 0 <= i < l.len() && (#[trigger] l[i]).0 == key;
    lemma_order_round_trip(o);
    assert(orders_of(l)[i] == o);
    lemma_sorted_same_orders(orders_of(l), o);
}

/// A bid that has been filed is read back as it was filed: wherever the bids can
/// be read afterwards, they show it.
pub proof fn lemma_filed_bid_is_read_back(
    m: Entries,
    now: u64,
    info: MessageInfoView,
    id: Seq<char>,
    price: u128,
)
    requires
        bid_ingest(m, now, info, id, price) is Ok,
        encode_utf8(info.sender).len() <= u64::MAX,
        listable(
            m.insert(place(bid_side(), id), order_bytes(bid_ingest(m, now, info, id, price)->Ok_0)),
            bid_side(),
        ),
        book_side(
            m.insert(place(bid_side(), id), order_bytes(bid_ingest(m, now, info, id, price)->Ok_0)),
            bid_side(),
        ) is Some,
    ensures
        shows(
            m.insert(place(bid_side(), id), order_bytes(bid_ingest(m, now, info, id, price)->Ok_0)),
            bid_side(),
            bid_ingest(m, now, info, id, price)->Ok_0,
        ),
{
    let bid = bid_ingest(m, now, info, id, price)->Ok_0;
    lemma_filed_bid_is_integral(m, now, info, id, price);
    lemma_stored_order_is_shown(m, bid_side(), bid);
}

/// Filing a bid keeps a sound book sound, and the book then shows the bid as it was
/// filed.
pub proof fn lemma_bid_keeps_book(
    m: Entries,
    now: u64,
    info: MessageInfoView,
    id: Seq<char>,
    price: u128,
)
    requires
        sound_book(m),
        bid_ingest(m, now, info, id, price) is Ok,
        encode_utf8(info.sender).len() <= u64::MAX,
    ensures
        ({
            let bid = bid_ingest(m, now, info, id, price)->Ok_0;
            let after = m.insert(place(bid_side(), id), order_bytes(bid));
            &&& sound_book(after)
            &&& config_of(after) == config_of(m)
            &&& book_side(after, bid_side()) is Some
            &&& book_side(after, bid_side())->Some_0.contains(bid)
            &&& book_side(after, ask_side()) == book_side(m, ask_side())
        }),
{
    let bid = bid_ingest(m, now, info, id, price)->Ok_0;
    lemma_filed_bid_is_integral(m, now, info, id, price);
    lemma_sides_apart();
    lemma_filed_order_shown(m, bid_side(), ask_side(), bid);
}

/// Filing an ask keeps a sound book sound, and the book then shows the ask as it was
/// filed.
pub proof fn lemma_ask_keeps_book(
    m: Entries,
    now: u64,
    info: MessageInfoView,
    id: Seq<char>,
    price: u128,
)
    requires
        sound_book(m),
        ask_ingest(m, now, info, id, price) is Ok,
        encode_utf8(info.sender).len() <= u64::MAX,
    ensures
        ({
            let ask = ask_ingest(m, now, info, id, price)->Ok_0;
            let after = m.insert(place(ask_side(), id), order_bytes(ask));
            &&& sound_book(after)
            &&& config_of(after) == config_of(m)
            &&& book_side(after, ask_side()) is Some
            &&& book_side(after, ask_side())->Some_0.contains(ask)
            &&& book_side(after, bid_side()) == book_side(m, bid_side())
        }),
{
    let ask = ask_ingest(m, now, info, id, price)->Ok_0;
    lemma_filed_ask_is_integral(m, now, info, id, price);
    lemma_sides_apart();
    lemma_filed_order_shown(m, ask_side(), bid_side(), ask);
}

/// An open order that can be stored, filed on one side of a sound book, leaves the
/// book sound; its side then shows it, and the other side is as it was.
pub proof fn lemma_filed_order_shown(m: Entries, side: Seq<u8>, other: Seq<u8>, o: OrderView)
    requires
        sound_book(m),
        side == bid_side() && other == ask_side() || side == ask_side() && other == bid_side(),
        !o.is_closed(),
        storable(o, side, config_of(m)->Ok_0),
    ensures
        ({
            let after = m.insert(place(side, o.id), order_bytes(o));
            &&& sound_book(after)
            &&& config_of(after) == config_of(m)
            &&& book_side(after, side) is Some
            &&& book_side(after, side)->Some_0.contains(o)
            &&& book_side(after, other) == book_side(m, other)
        }),
{
    let cfg = config_of(m)->Ok_0;
    let after = m.insert(place(side, o.id), order_bytes(o));
    let u = UpdateView { is_bid: side == bid_side(), order: o };
    lemma_sides_apart();
    assert(after == updated(m, side_of(u), u.order));
    lemma_updated_keeps_book(m, u);
    lemma_sound_side_filed(after, side, cfg);
    lemma_listing_lists(after, side);
    let l = listing(after, side);
    let key = encode_utf8(o.id);
    assert(after.contains_key((side, key)));
    let i = choose|i: int| 0 <= i < l.len() && (#[trigger] l[i]).0 == key;
    lemma_order_round_trip(o);
    assert(orders_of(l)[i] == o);
    lemma_sorted_same_orders(orders_of(l), o);
    // The other side lists as before.
    lemma_listing_lists(m, other);
    let before = listing(m, other);
    assert(is_listing(before, after, other)) by {
        assert forall|k: Seq<u8>| #[trigger] after.contains_key((other, k)) implies exists|
            h: int,
        |
            0 <= h < before.len() && (#[trigger] before[h]).0 == k by {
            assert(m.contains_key((other, k)));
        }
    }
    lemma_listing_unique(before, after, other);
}

/// A match is determined by the configuration, the orders on file, the sender and
/// the tick: two stores that agree on these give one outcome.
pub proof fn lemma_match_is_determined(a: Entries, b: Entries, sender: Seq<char>, now: u64)
    requires
        config_of(a) == config_of(b),
        filed(a, ask_side()) == filed(b, ask_side()),
        filed(a, bid_side()) == filed(b, bid_side()),
    ensures
        match_outcome(a, sender, now) == match_outcome(b, sender, now),
{
}

/// A match at a tick before which no ask arrived hands out nothing, records nothing
/// and leaves the store as it was; it is what a sweep of these asks comes to.
pub proof fn lemma_quiet_match(m: Entries, sender: Seq<char>, now: u64)
    requires
        match_outcome(m, sender, now) is Ok,
        !any_before(book_side(m, ask_side())->Some_0, now),
    ensures
        match_outcome(m, sender, now)->Ok_0.response.messages == Seq::<
            TransferView,
        >::empty(),
        match_outcome(m, sender, now)->Ok_0.response.attributes == Seq::<
            (Seq<char>, Seq<char>),
        >::empty(),
        applied(m, match_outcome(m, sender, now)->Ok_0.updates) == m,
        forall|bids: Seq<OrderView>|
            swept(bids, book_side(m, ask_side())->Some_0, now) == Ok::<
                SweepView,
                ErrorView,
            >(#[trigger] fresh(bids)),
{
    let asks = book_side(m, ask_side())->Some_0;
    assert forall|bids: Seq<OrderView>|
        swept(bids, asks, now) == Ok::<SweepView, ErrorView>(
            #[trigger] fresh(bids),
        ) by {
        lemma_quiet_sweep(asks, 0, fresh(bids), now);
    }
}

/// `m` holds no order on either side.
pub open spec fn holds_no_order(m: Entries) -> bool {
    &&& forall|key: Seq<u8>| !m.contains_key((bid_side(), key))
    &&& forall|key: Seq<u8>| !m.contains_key((ask_side(), key))
}

/// A store that holds no order yet holds a sound book once a configuration with an
/// increment above zero has been stored.
pub proof fn lemma_new_book_is_sound(m: Entries, s: StateView)
    requires
        holds_no_order(m),
        s.ask_increment > 0,
        encode_utf8(s.contract_admin).len() <= u64::MAX,
        encode_utf8(s.ask_denom).len() <= u64::MAX,
    ensures
        sound_book(m.insert(config_place(), state_bytes(s))),
        config_of(m.insert(config_place(), state_bytes(s))) == Ok::<
            StateView,
            StoreError,
        >(s),
{
    let after = m.insert(config_place(), state_bytes(s));
    let none = Seq::<(Seq<u8>, Seq<u8>)>::empty();
    lemma_sides_apart();
    lemma_state_round_trip(s);
    assert(is_listing(none, after, bid_side())) by {
        assert forall|k: Seq<u8>| #[trigger] after.contains_key((bid_side(), k)) implies false by {
            assert(!m.contains_key((bid_side(), k)));
        }
    }
    assert(is_listing(none, after, ask_side())) by {
        assert forall|k: Seq<u8>| #[trigger] after.contains_key((ask_side(), k)) implies false by {
            assert(!m.contains_key((ask_side(), k)));
        }
    }
    assert forall|key: Seq<u8>| #[trigger] after.contains_key((bid_side(), key)) implies false by {
        assert(!m.contains_key((bid_side(), key)));
    }
    assert forall|key: Seq<u8>| #[trigger] after.contains_key((ask_side(), key)) implies false by {
        assert(!m.contains_key((ask_side(), key)));
    }
}

} // verus!
