//! The operations of the book: setting it up, filing orders, running a match,
//! and answering queries.

use vstd::prelude::*;
use crate::book::{
    book_side, config, config_of, config_place, config_read, get_orders, place, update_order,
    updated,
};
use crate::codec::{ask_side, bid_side, order_bytes, state_bytes};
use crate::error::{failure, ContractError, ErrorView, StoreError};
use crate::ingest::{ask_ingest, bid_ingest, ingest_response, try_ask, try_bid};
use crate::late::{lemma_match_rest_without_late, same_without_late};
use crate::ledger::{
    holds_no_order, lemma_match_keeps_book, lemma_match_names_no_late_order,
    lemma_match_pays_no_admin, lemma_match_spares_late_orders, lemma_new_book_is_sound,
    names_no_late, sound_book, spares_late,
};
use crate::model::views;
use crate::msg::{
    AskOrders, BidOrders, BookView, Env, ExecuteMsg, InitMsg, MessageInfo, MessageInfoView,
    Orderbook, QueryMsg, QueryResponse, QueryView, Response, ResponseView,
};
use crate::state::{AskOrder, BidOrder, OrderView, State, StateView};
use crate::store::{entries, Entries, Store};
use crate::sweep::{sweep, swept, Sweep, Update, UpdateView};

verus! {

/// None of the transfers of `response` goes to `admin`.
pub open spec fn pays_no_admin(response: ResponseView, admin: Seq<char>) -> bool {
    forall|k: int|
        0 <= k < response.messages.len() ==> (#[trigger] response.messages[k]).to_address != admin
}

/// The namespace that an update goes to.
pub open spec fn side_of(u: UpdateView) -> Seq<u8> {
    if u.is_bid {
        bid_side()
    } else {
        ask_side()
    }
}

/// `m` after the updates `us` have been written back, in order.
pub open spec fn applied(m: Entries, us: Seq<UpdateView>) -> Entries
    decreases us.len(),
{
    if us.len() == 0 {
        m
    } else {
        updated(applied(m, us.drop_last()), side_of(us.last()), us.last().order)
    }
}

/// One of `asks` arrived before the tick `now`.
pub open spec fn any_before(asks: Seq<OrderView>, now: u64) -> bool {
    exists|i: int| 0 <= i < asks.len() && (#[trigger] asks[i]).before(now)
}

/// What a match hands to the host and what it writes back to the store.
pub struct MatchOutcome {
    pub response: ResponseView,
    pub updates: Seq<UpdateView>,
}

/// The outcome of a match that `sender` asks for at the tick `now` on the book that
/// `m` holds, or the refusal of the match. The bids are read only if an ask arrived
/// before the tick.
pub open spec fn match_outcome(m: Entries, sender: Seq<char>, now: u64) -> Result<
    MatchOutcome,
    ErrorView,
> {
    match config_of(m) {
        Err(e) => Err(ErrorView::Std(e)),
        Ok(cfg) => {
            if sender != cfg.contract_admin {
                Err(ErrorView::Unauthorized)
            } else {
                match book_side(m, ask_side()) {
                    None => Err(ErrorView::Std(StoreError::ParseErr {  })),
                    Some(asks) => {
                        if !any_before(asks, now) {
                            Ok(
                                MatchOutcome {
                                    response: ResponseView {
                                        messages: Seq::empty(),
                                        attributes: Seq::empty(),
                                    },
                                    updates: Seq::empty(),
                                },
                            )
                        } else {
                            match book_side(m, bid_side()) {
                                None => Err(ErrorView::Std(StoreError::ParseErr {  })),
                                Some(bids) => match swept(bids, asks, now) {
                                    Err(e) => Err(e),
                                    Ok(done) => Ok(
                                        MatchOutcome {
                                            response: ResponseView {
                                                messages: done.messages,
                                                attributes: done.attributes,
                                            },
                                            updates: done.updates,
                                        },
                                    ),
                                },
                            }
                        }
                    },
                }
            }
        },
    }
}

/// Write an ask back after a match: out of the store if it is closed.
pub fn update_ask_order(store: &mut Store, order: AskOrder)
    ensures
        entries(*final(store)) == updated(entries(*old(store)), ask_side(), order@),
{
    update_order(store, order)
}

/// Write a bid back after a match: out of the store if it is closed.
pub fn update_bid_order(store: &mut Store, order: BidOrder)
    ensures
        entries(*final(store)) == updated(entries(*old(store)), bid_side(), order@),
{
    update_order(store, order)
}

/// Write the updates of a sweep back to the store, in the order of the matches.
pub fn apply_updates(store: &mut Store, updates: &Vec<Update>)
    ensures
        entries(*final(store)) == applied(entries(*old(store)), views(updates@)),
{
    let ghost us = views(updates@);
    let mut i: usize = 0;
    assert(us.take(0) =~= Seq::empty());
    while i < updates.len()
        invariant
            i <= updates@.len(),
            us == views(updates@),
            entries(*store) == applied(entries(*old(store)), us.take(i as int)),
        decreases updates@.len() - i,
    {
        assert(us.take(i + 1).drop_last() =~= us.take(i as int));
        assert(us.take(i + 1).last() == updates@[i as int]@);
        match &updates[i] {
            Update::Ask(ask) => update_ask_order(store, ask.clone()),
            Update::Bid(bid) => update_bid_order(store, bid.clone()),
        }
        i = i + 1;
    }
    assert(us.take(us.len() as int) =~= us);
}

/// Whether one of `asks` arrived before the tick `now`.
pub fn has_ask_before(asks: &Vec<AskOrder>, now: u64) -> (r: bool)
    ensures
        r == any_before(views(asks@), now),
{
    let mut i: usize = 0;
    while i < asks.len()
        invariant
            i <= asks@.len(),
            forall|j: int| 0 <= j < i ==> !(#[trigger] views(asks@)[j]).before(now),
        decreases asks@.len() - i,
    {
        if asks[i].ts < now {
            assert(views(asks@)[i as int].before(now));
            return true;
        }
        i = i + 1;
    }
    false
}

/// Run the match: cross every ask that arrived before this tick with the bids that
/// meet its price, in price-time order, and write the outcome back. Only the admin
/// may ask for it. A refused match leaves the store as it was. The orders of this
/// tick and later ones take no part: they stay as they are, no entry of the audit
/// trail names one, and the match is the match on the store without them.
pub fn try_match(store: &mut Store, info: MessageInfo, env: Env) -> (r: Result<
    Response,
    ContractError,
>)
    ensures
        match match_outcome(entries(*old(store)), info@.sender, env.seconds()) {
            Ok(outcome) => r is Ok && r->Ok_0@ == outcome.response && entries(*final(store))
                == applied(entries(*old(store)), outcome.updates),
            Err(e) => failure(r) == Some(e) && entries(*final(store)) == entries(*old(store)),
        },
        sound_book(entries(*old(store))) ==> sound_book(entries(*final(store))),
        sound_book(entries(*old(store))) && r is Ok ==> pays_no_admin(
            r->Ok_0@,
            config_of(entries(*old(store)))->Ok_0.contract_admin,
        ),
        r is Ok ==> spares_late(entries(*old(store)), entries(*final(store)), env.seconds()),
        r is Ok ==> names_no_late(
            entries(*old(store)),
            r->Ok_0@.attributes,
            match_outcome(entries(*old(store)), info@.sender, env.seconds())->Ok_0.updates,
            env.seconds(),
        ),
        r is Ok ==> same_without_late(
            entries(*old(store)),
            entries(*final(store)),
            info@.sender,
            env.seconds(),
        ),
{
    proof {
        if sound_book(entries(*old(store))) && match_outcome(
            entries(*old(store)),
            info@.sender,
            env.seconds(),
        ) is Ok {
            lemma_match_keeps_book(entries(*old(store)), info@.sender, env.seconds());
            lemma_match_pays_no_admin(entries(*old(store)), info@.sender, env.seconds());
        }
    }
    let state = config_read(store)?;
    if !(info.sender == state.contract_admin) {
        return Err(ContractError::Unauthorized {  });
    }
    let now = env.seconds();
    let asks = get_orders::<AskOrder>(store)?;
    if !has_ask_before(&asks, now) {
        proof {
            lemma_match_rest_without_late(entries(*old(store)), info@.sender, now);
        }
        let quiet = Response { messages: Vec::new(), attributes: Vec::new() };
        assert(quiet@.messages =~= Seq::empty() && quiet@.attributes =~= Seq::empty());
        return Ok(quiet);
    }
    let bids = get_orders::<BidOrder>(store)?;
    let done = sweep(asks, bids, now)?;
    proof {
        lemma_match_spares_late_orders(entries(*old(store)), info@.sender, now);
        lemma_match_names_no_late_order(entries(*old(store)), info@.sender, now);
        lemma_match_rest_without_late(entries(*old(store)), info@.sender, now);
    }
    let Sweep { bids: _, messages, attributes, updates } = done;
    apply_updates(store, &updates);
    let response = Response { messages, attributes };
    proof {
        if sound_book(entries(*old(store))) {
            let outcome = match_outcome(entries(*old(store)), info@.sender, env.seconds())->Ok_0;
            assert forall|k: int| 0 <= k < response@.messages.len() implies (
            #[trigger] response@.messages[k]).to_address != config_of(
                entries(*old(store)),
            )->Ok_0.contract_admin by {
                assert(response@.messages[k] == outcome.response.messages[k]);
            }
        }
    }
    Ok(response)
}

/// The bids of the book in price-time order.
pub fn get_bid_orders(store: &Store) -> (r: Result<Vec<BidOrder>, ContractError>)
    ensures
        match book_side(entries(*store), bid_side()) {
            Some(orders) => r is Ok && views(r->Ok_0@) == orders,
            None => failure(r) == Some(ErrorView::Std(StoreError::ParseErr {  })),
        },
{
    get_orders::<BidOrder>(store)
}

/// The asks of the book in price-time order.
pub fn get_ask_orders(store: &Store) -> (r: Result<Vec<AskOrder>, ContractError>)
    ensures
        match book_side(entries(*store), ask_side()) {
            Some(orders) => r is Ok && views(r->Ok_0@) == orders,
            None => failure(r) == Some(ErrorView::Std(StoreError::ParseErr {  })),
        },
{
    get_orders::<AskOrder>(store)
}

/// The answer to a query on the book that `m` holds, or the failure of the store.
pub open spec fn query_outcome(m: Entries, msg: QueryMsg) -> Result<QueryView, ErrorView> {
    let broken = Err::<QueryView, ErrorView>(ErrorView::Std(StoreError::ParseErr {  }));
    match msg {
        QueryMsg::GetBidOrders {  } => match book_side(m, bid_side()) {
            Some(bids) => Ok(QueryView::BidOrders(bids)),
            None => broken,
        },
        QueryMsg::GetAskOrders {  } => match book_side(m, ask_side()) {
            Some(asks) => Ok(QueryView::AskOrders(asks)),
            None => broken,
        },
        QueryMsg::GetOrderbook {  } => match (book_side(m, bid_side()), book_side(m, ask_side())) {
            (Some(bids), Some(asks)) => Ok(
                QueryView::Orderbook(BookView { bid_orders: bids, ask_orders: asks }),
            ),
            _ => broken,
        },
    }
}

/// Answer a query for the bids.
pub fn try_get_bid_orders(store: &Store) -> (r: Result<QueryResponse, ContractError>)
    ensures
        match query_outcome(entries(*store), QueryMsg::GetBidOrders {  }) {
            Ok(answer) => r is Ok && r->Ok_0@ == answer,
            Err(e) => failure(r) == Some(e),
        },
{
    let bid_orders = get_bid_orders(store)?;
    Ok(QueryResponse::BidOrders(BidOrders { bid_orders }))
}

/// Answer a query for the asks.
pub fn try_get_ask_orders(store: &Store) -> (r: Result<QueryResponse, ContractError>)
    ensures
        match query_outcome(entries(*store), QueryMsg::GetAskOrders {  }) {
            Ok(answer) => r is Ok && r->Ok_0@ == answer,
            Err(e) => failure(r) == Some(e),
        },
{
    let ask_orders = get_ask_orders(store)?;
    Ok(QueryResponse::AskOrders(AskOrders { ask_orders }))
}

/// Answer a query for both sides of the book.
pub fn try_get_orderbook(store: &Store) -> (r: Result<QueryResponse, ContractError>)
    ensures
        match query_outcome(entries(*store), QueryMsg::GetOrderbook {  }) {
            Ok(answer) => r is Ok && r->Ok_0@ == answer,
            Err(e) => failure(r) == Some(e),
        },
{
    let bid_orders = get_bid_orders(store)?;
    let ask_orders = get_ask_orders(store)?;
    Ok(QueryResponse::Orderbook(Orderbook { bid_orders, ask_orders }))
}

/// Answer a query. The store is only read.
pub fn query(store: &Store, env: Env, msg: QueryMsg) -> (r: Result<QueryResponse, ContractError>)
    ensures
        match query_outcome(entries(*store), msg) {
            Ok(answer) => r is Ok && r->Ok_0@ == answer,
            Err(e) => failure(r) == Some(e),
        },
{
    match msg {
        QueryMsg::GetBidOrders {  } => try_get_bid_orders(store),
        QueryMsg::GetAskOrders {  } => try_get_ask_orders(store),
        QueryMsg::GetOrderbook {  } => try_get_orderbook(store),
    }
}

/// The configuration that a book is set up with: the base is `nhash` in increments
/// of 10^9, the quote is `bid_denom`, and `admin` runs the matches.
pub open spec fn initial_state(admin: Seq<char>, bid_denom: Seq<char>) -> StateView {
    StateView {
        ask_denom: "nhash"@,
        ask_increment: 1_000_000_000,
        bid_denom,
        contract_admin: admin,
    }
}

/// Set the book up: store its configuration, with the sender as the admin.
pub fn instantiate(store: &mut Store, env: Env, info: MessageInfo, msg: InitMsg) -> (r: Result<
    Response,
    ContractError,
>)
    ensures
        r is Ok,
        r->Ok_0@ == (ResponseView { messages: Seq::empty(), attributes: Seq::empty() }),
        entries(*final(store)) == entries(*old(store)).insert(
            config_place(),
            state_bytes(initial_state(info@.sender, msg.bid_denom@)),
        ),
        config_of(entries(*final(store))) == Ok::<StateView, StoreError>(
            initial_state(info@.sender, msg.bid_denom@),
        ),
        holds_no_order(entries(*old(store))) ==> sound_book(entries(*final(store))),
{
    let state = State {
        ask_denom: "nhash".to_owned(),
        ask_increment: 1_000_000_000,
        bid_denom: msg.bid_denom,
        contract_admin: info.sender,
    };
    config(store, &state);
    proof {
        if holds_no_order(entries(*old(store))) {
            lemma_new_book_is_sound(entries(*old(store)), state@);
        }
    }
    let r = Response { messages: Vec::new(), attributes: Vec::new() };
    assert(r@.messages =~= Seq::empty() && r@.attributes =~= Seq::empty());
    Ok(r)
}

/// What the host is told, and what the store holds, after a message has been
/// carried out on the book that `m` holds; or the refusal of the message.
pub open spec fn execute_outcome(m: Entries, now: u64, info: MessageInfoView, msg: ExecuteMsg) -> Result<
    (ResponseView, Entries),
    ErrorView,
> {
    match msg {
        ExecuteMsg::Bid { id, price } => match bid_ingest(m, now, info, id@, price) {
            Ok(bid) => Ok(
                (ingest_response("bid"@, id@), m.insert(place(bid_side(), id@), order_bytes(bid))),
            ),
            Err(e) => Err(e),
        },
        ExecuteMsg::Ask { id, price } => match ask_ingest(m, now, info, id@, price) {
            Ok(ask) => Ok(
                (ingest_response("ask"@, id@), m.insert(place(ask_side(), id@), order_bytes(ask))),
            ),
            Err(e) => Err(e),
        },
        ExecuteMsg::Match {  } => match match_outcome(m, info.sender, now) {
            Ok(outcome) => Ok((outcome.response, applied(m, outcome.updates))),
            Err(e) => Err(e),
        },
    }
}

/// File a bid or an ask, or run the match. A refused message leaves the store as it
/// was.
pub fn execute(store: &mut Store, env: Env, info: MessageInfo, msg: ExecuteMsg) -> (r: Result<
    Response,
    ContractError,
>)
    ensures
        match execute_outcome(entries(*old(store)), env.seconds(), info@, msg) {
            Ok((response, held)) => r is Ok && r->Ok_0@ == response && entries(*final(store))
                == held,
            Err(e) => failure(r) == Some(e) && entries(*final(store)) == entries(*old(store)),
        },
        sound_book(entries(*old(store))) ==> sound_book(entries(*final(store))),
{
    match msg {
        ExecuteMsg::Bid { id, price } => try_bid(store, env, info, id, price),
        ExecuteMsg::Ask { id, price } => try_ask(store, env, info, id, price),
        ExecuteMsg::Match {  } => try_match(store, info, env),
    }
}

} // verus!
