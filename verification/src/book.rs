//! The order store: configuration and orders as records of the key/value store,
//! each side of the book in its own namespace.

use vstd::prelude::*;
use vstd::utf8::encode_utf8;
use crate::codec::{
    ask_side, bid_side, decode_order, decode_state, encode_order, encode_state,
    lemma_order_round_trip, lemma_state_round_trip, order_bytes, order_of, state_bytes, state_of,
    Persisted,
};
use crate::error::{failure, ContractError, ErrorView, StoreError};
use crate::model::views;
use crate::ranking::{price_time_sorted, sort_price_time};
use crate::state::{AskOrder, BidOrder, OrderView, State, StateView};
use crate::store::{entries, lemma_listing_unique, listable, listing, Entries, Store};

verus! {

/// The namespace of the configuration: the bytes of `config`.
pub open spec fn config_side() -> Seq<u8> {
    seq![99u8, 111u8, 110u8, 102u8, 105u8, 103u8]
}

/// The place of the configuration: the empty key of its namespace.
pub open spec fn config_place() -> (Seq<u8>, Seq<u8>) {
    (config_side(), Seq::empty())
}

/// The place of the order called `id` in the namespace `side`.
pub open spec fn place(side: Seq<u8>, id: Seq<char>) -> (Seq<u8>, Seq<u8>) {
    (side, encode_utf8(id))
}

/// Every record of the listing `l` is an order.
pub open spec fn all_orders(l: Seq<(Seq<u8>, Seq<u8>)>) -> bool {
    forall|i: int| 0 <= i < l.len() ==> order_of((#[trigger] l[i]).0, l[i].1) is Some
}

/// The orders that the records of the listing `l` stand for, in the listing's order.
pub open spec fn orders_of(l: Seq<(Seq<u8>, Seq<u8>)>) -> Seq<OrderView> {
    Seq::new(l.len(), |i: int| order_of(l[i].0, l[i].1)->Some_0)
}

/// The orders filed in the namespace `side` of `m`, by ascending key; `None` where a
/// record of the namespace is not an order.
pub open spec fn filed(m: Entries, side: Seq<u8>) -> Option<Seq<OrderView>> {
    if all_orders(listing(m, side)) {
        Some(orders_of(listing(m, side)))
    } else {
        None
    }
}

/// One side of the book that `m` holds, in price-time order; orders of one price and
/// one arrival time come by ascending key.
pub open spec fn book_side(m: Entries, side: Seq<u8>) -> Option<Seq<OrderView>> {
    match filed(m, side) {
        Some(orders) => Some(price_time_sorted(orders)),
        None => None,
    }
}

/// The configuration that `m` holds: `Ok` with it, or the error that reading it gives.
pub open spec fn config_of(m: Entries) -> Result<StateView, StoreError> {
    if !m.contains_key(config_place()) {
        Err(StoreError::NotFound {  })
    } else {
        match state_of(m[config_place()]) {
            Some(s) => Ok(s),
            None => Err(StoreError::ParseErr {  }),
        }
    }
}

/// The bytes of `config`.
fn config_namespace() -> (ns: Vec<u8>)
    ensures
        ns@ == config_side(),
{
    let ns = vec![99u8, 111u8, 110u8, 102u8, 105u8, 103u8];
    assert(ns@ =~= config_side());
    ns
}

/// Store `state` as the configuration of the book.
pub fn config(store: &mut Store, state: &State)
    requires
        state.ask_increment > 0,
    ensures
        entries(*final(store)) == entries(*old(store)).insert(config_place(), state_bytes(state@)),
        config_of(entries(*final(store))) == Ok::<StateView, StoreError>(state@),
        encode_utf8(state@.contract_admin).len() <= u64::MAX,
        encode_utf8(state@.ask_denom).len() <= u64::MAX,
{
    let ns = config_namespace();
    let key: Vec<u8> = Vec::new();
    let value = encode_state(state);
    proof {
        lemma_state_round_trip(state@);
        assert(key@ =~= Seq::<u8>::empty());
    }
    store.set(ns.as_slice(), key.as_slice(), value.as_slice());
}

/// Read the configuration of the book.
pub fn config_read(store: &Store) -> (r: Result<State, ContractError>)
    ensures
        match config_of(entries(*store)) {
            Ok(s) => r is Ok && r->Ok_0@ == s,
            Err(e) => failure(r) == Some(ErrorView::Std(e)),
        },
{
    let ns = config_namespace();
    let key: Vec<u8> = Vec::new();
    assert(key@ =~= Seq::<u8>::empty());
    match store.get(ns.as_slice(), key.as_slice()) {
        None => Err(ContractError::Std(StoreError::NotFound {  })),
        Some(value) => match decode_state(value.as_slice()) {
            Some(state) => Ok(state),
            None => Err(ContractError::Std(StoreError::ParseErr {  })),
        },
    }
}

/// What `m` holds for the order called `id` on the side `side`: nothing, an order, or
/// a record that is no order.
pub open spec fn held(m: Entries, side: Seq<u8>, id: Seq<char>) -> Result<
    Option<OrderView>,
    StoreError,
> {
    if !m.contains_key(place(side, id)) {
        Ok(None)
    } else {
        match order_of(encode_utf8(id), m[place(side, id)]) {
            Some(o) => Ok(Some(o)),
            None => Err(StoreError::ParseErr {  }),
        }
    }
}

/// `m` after `o` has been written back to the side `side`: a closed order is taken
/// out, an open one replaces what was held for its id.
pub open spec fn updated(m: Entries, side: Seq<u8>, o: OrderView) -> Entries {
    if o.is_closed() {
        m.remove(place(side, o.id))
    } else {
        m.insert(place(side, o.id), order_bytes(o))
    }
}

/// Read the order called `id`, if the store holds one.
pub fn load<T: Persisted>(store: &Store, id: &String) -> (r: Result<Option<T>, ContractError>)
    ensures
        match held(entries(*store), T::side(), id@) {
            Ok(Some(o)) => r is Ok && r->Ok_0 is Some && r->Ok_0->Some_0@ == o,
            Ok(None) => r is Ok && r->Ok_0 is None,
            Err(e) => failure(r) == Some(ErrorView::Std(e)),
        },
{
    let ns = T::namespace();
    let key = id.as_str().as_bytes();
    match store.get(ns.as_slice(), key) {
        None => Ok(None),
        Some(value) => match decode_order::<T>(key, value.as_slice()) {
            Some(order) => Ok(Some(order)),
            None => Err(ContractError::Std(StoreError::ParseErr {  })),
        },
    }
}

/// Read the order called `id`, which the store has to hold.
pub fn get<T: Persisted>(store: &Store, id: &String) -> (r: Result<T, ContractError>)
    ensures
        match held(entries(*store), T::side(), id@) {
            Ok(Some(o)) => r is Ok && r->Ok_0@ == o,
            Ok(None) => failure(r) == Some(ErrorView::Std(StoreError::NotFound {  })),
            Err(e) => failure(r) == Some(ErrorView::Std(e)),
        },
{
    match load::<T>(store, id)? {
        Some(order) => Ok(order),
        None => Err(ContractError::Std(StoreError::NotFound {  })),
    }
}

/// Store `order` under its id, unless the store holds an order of its side under
/// that id already.
pub fn insert<T: Persisted>(store: &mut Store, order: &T) -> (r: Result<(), ContractError>)
    ensures
        match held(entries(*old(store)), T::side(), order@.id) {
            Ok(None) => r is Ok && entries(*final(store)) == entries(*old(store)).insert(
                place(T::side(), order@.id),
                order_bytes(order@),
            ),
            Ok(Some(_)) => failure(r) == Some(T::duplicate(order@.id)) && entries(*final(store))
                == entries(*old(store)),
            Err(e) => failure(r) == Some(ErrorView::Std(e)) && entries(*final(store)) == entries(
                *old(store),
            ),
        },
{
    if load::<T>(store, order.id_of())?.is_some() {
        return Err(T::refuse_duplicate(order.id_of().clone()));
    }
    save(store, order);
    Ok(())
}

/// Store `order` under its id, in place of what the store held for that id.
pub fn save<T: Persisted>(store: &mut Store, order: &T)
    ensures
        entries(*final(store)) == entries(*old(store)).insert(
            place(T::side(), order@.id),
            order_bytes(order@),
        ),
        held(entries(*final(store)), T::side(), order@.id) == Ok::<Option<OrderView>, StoreError>(
            Some(order@),
        ),
        encode_utf8(order@.owner).len() <= u64::MAX,
{
    let ns = T::namespace();
    let value = encode_order(order);
    proof {
        lemma_order_round_trip(order@);
    }
    store.set(ns.as_slice(), order.id_of().as_str().as_bytes(), value.as_slice());
}

/// Take the order called `id` out of the store; nothing happens where there is none.
pub fn discard<T: Persisted>(store: &mut Store, id: &String)
    ensures
        entries(*final(store)) == entries(*old(store)).remove(place(T::side(), id@)),
{
    let ns = T::namespace();
    store.remove(ns.as_slice(), id.as_str().as_bytes());
}

/// Write an order back after a match: out of the store if it is closed, else in
/// place of its earlier record.
pub fn update_order<T: Persisted>(store: &mut Store, order: T)
    ensures
        entries(*final(store)) == updated(entries(*old(store)), T::side(), order@),
{
    if order.proceeds_of() == 0 && order.funds_of() == 0 {
        discard::<T>(store, order.id_of());
    } else {
        save(store, &order);
    }
}

/// All the orders of one side, by ascending key.
pub fn scan<T: Persisted>(store: &Store) -> (r: Result<Vec<T>, ContractError>)
    ensures
        match filed(entries(*store), T::side()) {
            Some(orders) => r is Ok && views(r->Ok_0@) == orders,
            None => failure(r) == Some(ErrorView::Std(StoreError::ParseErr {  })),
        },
        listable(entries(*store), T::side()),
{
    let ns = T::namespace();
    let pairs = store.range(ns.as_slice());
    let ghost l = views(pairs@);
    proof {
        lemma_listing_unique(l, entries(*store), T::side());
        assert(listable(entries(*store), T::side()));
    }
    let mut out: Vec<T> = Vec::new();
    let mut i: usize = 0;
    while i < pairs.len()
        invariant
            i <= pairs@.len(),
            l == views(pairs@),
            out@.len() == i,
            forall|j: int| 0 <= j < i ==> order_of((#[trigger] l[j]).0, l[j].1) == Some(out@[j]@),
            l == listing(entries(*store), T::side()),
            listable(entries(*store), T::side()),
        decreases pairs@.len() - i,
    {
        assert(l[i as int] == (pairs@[i as int].0@, pairs@[i as int].1@));
        match decode_order::<T>(pairs[i].0.as_slice(), pairs[i].1.as_slice()) {
            Some(order) => {
                out.push(order);
            },
            None => {
                return Err(ContractError::Std(StoreError::ParseErr {  }));
            },
        }
        i = i + 1;
    }
    assert(views(out@) =~= orders_of(l));
    Ok(out)
}

/// All the orders of one side in price-time order.
pub fn get_orders<T: Persisted>(store: &Store) -> (r: Result<Vec<T>, ContractError>)
    ensures
        match book_side(entries(*store), T::side()) {
            Some(orders) => r is Ok && views(r->Ok_0@) == orders,
            None => failure(r) == Some(ErrorView::Std(StoreError::ParseErr {  })),
        },
        listable(entries(*store), T::side()),
{
    match scan::<T>(store) {
        Ok(orders) => Ok(sort_price_time(orders)),
        Err(e) => Err(e),
    }
}

/// File a bid under its id, in place of what the store held for that id.
pub fn bid_orders(store: &mut Store, order: &BidOrder)
    ensures
        entries(*final(store)) == entries(*old(store)).insert(
            place(bid_side(), order@.id),
            order_bytes(order@),
        ),
        held(entries(*final(store)), bid_side(), order@.id) == Ok::<Option<OrderView>, StoreError>(
            Some(order@),
        ),
{
    save(store, order)
}

/// All the bids on file, by ascending key.
pub fn bid_orders_read(store: &Store) -> (r: Result<Vec<BidOrder>, ContractError>)
    ensures
        match filed(entries(*store), bid_side()) {
            Some(orders) => r is Ok && views(r->Ok_0@) == orders,
            None => failure(r) == Some(ErrorView::Std(StoreError::ParseErr {  })),
        },
{
    scan::<BidOrder>(store)
}

/// File an ask under its id, in place of what the store held for that id.
pub fn ask_orders(store: &mut Store, order: &AskOrder)
    ensures
        entries(*final(store)) == entries(*old(store)).insert(
            place(ask_side(), order@.id),
            order_bytes(order@),
        ),
        held(entries(*final(store)), ask_side(), order@.id) == Ok::<Option<OrderView>, StoreError>(
            Some(order@),
        ),
{
    save(store, order)
}

/// All the asks on file, by ascending key.
pub fn ask_orders_read(store: &Store) -> (r: Result<Vec<AskOrder>, ContractError>)
    ensures
        match filed(entries(*store), ask_side()) {
            Some(orders) => r is Ok && views(r->Ok_0@) == orders,
            None => failure(r) == Some(ErrorView::Std(StoreError::ParseErr {  })),
        },
{
    scan::<AskOrder>(store)
}

} // verus!
