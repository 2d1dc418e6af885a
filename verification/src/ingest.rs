//! Taking orders in: the checks that a bid or an ask has to pass, and the order
//! that is filed when it passes them.

use vstd::prelude::*;
use vstd::string::StringExecFns;
use crate::book::{config_of, config_read, held, load, place, save};
use crate::codec::{ask_side, bid_side, order_bytes};
use crate::error::{failure, ContractError, ErrorView};
use crate::ledger::{lemma_ask_keeps_book, lemma_bid_keeps_book, shows, sound_book};
use crate::msg::{Attribute, Env, MessageInfo, MessageInfoView, Response, ResponseView};
use crate::quantity::{
    checked_ask_proceeds, checked_bid_proceeds, lemma_ask_proceeds_exact,
    lemma_bid_proceeds_exact, proceeds_of_ask, proceeds_of_bid,
};
use crate::state::{AskOrder, BidOrder, OrderView};
use crate::store::{entries, Entries, Store};
use crate::text::{decimal, decimal_text, joined};

verus! {

/// The reason given when an order names no price.
pub open spec fn no_price_text() -> Seq<char> {
    "price must be > 0"@
}

/// The reason given when a bid comes with no funds or with more than one kind.
pub open spec fn bid_count_text() -> Seq<char> {
    "invalid number of bid funds provided"@
}

/// The reason given when a bid comes with an amount of zero.
pub open spec fn bid_zero_text() -> Seq<char> {
    "bid amount must be > 0"@
}

/// The reason given when a bid comes in `got` and the book is quoted in `required`.
pub open spec fn bid_denom_text(got: Seq<char>, required: Seq<char>) -> Seq<char> {
    "invalid bid denom: got "@ + got + ", require "@ + required
}

/// The reason given when an ask comes with no funds or with more than one kind.
pub open spec fn ask_count_text() -> Seq<char> {
    "invalid number of ask funds provided"@
}

/// The reason given when an ask comes with `amount`, which is zero or no whole
/// number of increments.
pub open spec fn ask_amount_text(amount: u128) -> Seq<char> {
    "ask amount must be > 0 in the required increments: got "@ + decimal(amount as nat)
}

/// The reason given when an ask comes in `got` and the book sells `required`.
pub open spec fn ask_denom_text(got: Seq<char>, required: Seq<char>) -> Seq<char> {
    "invalid ask denom: got "@ + got + ", require "@ + required
}

/// What the host is told of an order that was taken into the book.
pub open spec fn ingest_response(action: Seq<char>, id: Seq<char>) -> ResponseView {
    ResponseView { messages: Seq::empty(), attributes: seq![("action"@, action), ("id"@, id)] }
}

/// The bid to file for a message, or the refusal of the message. The checks come in
/// this order: the price, the funds, the sender, the id, the integrality of the
/// proceeds.
pub open spec fn bid_ingest(
    m: Entries,
    now: u64,
    info: MessageInfoView,
    id: Seq<char>,
    price: u128,
) -> Result<OrderView, ErrorView> {
    if price == 0 {
        Err(ErrorView::InvalidPrice { message: no_price_text() })
    } else if info.funds.len() != 1 {
        Err(ErrorView::InvalidFunds { message: bid_count_text() })
    } else {
        match config_of(m) {
            Err(e) => Err(ErrorView::Std(e)),
            Ok(cfg) => {
                let coin = info.funds[0];
                if coin.amount == 0 {
                    Err(ErrorView::InvalidFunds { message: bid_zero_text() })
                } else if coin.denom != cfg.bid_denom {
                    Err(
                        ErrorView::InvalidFunds {
                            message: bid_denom_text(coin.denom, cfg.bid_denom),
                        },
                    )
                } else if info.sender == cfg.contract_admin {
                    Err(ErrorView::Unauthorized)
                } else {
                    match held(m, bid_side(), id) {
                        Err(e) => Err(ErrorView::Std(e)),
                        Ok(Some(_)) => Err(ErrorView::DuplicateBid { id }),
                        Ok(None) => match checked_bid_proceeds(coin.amount, price, cfg.ask_increment) {
                            Err(e) => Err(e),
                            Ok(proceeds) => Ok(
                                OrderView {
                                    id,
                                    price,
                                    ts: now,
                                    owner: info.sender,
                                    funds: coin.amount,
                                    funds_denom: coin.denom,
                                    proceeds,
                                },
                            ),
                        },
                    }
                }
            },
        }
    }
}

/// The ask to file for a message, or the refusal of the message. The checks come in
/// this order: the price, the funds, the sender, the id.
pub open spec fn ask_ingest(
    m: Entries,
    now: u64,
    info: MessageInfoView,
    id: Seq<char>,
    price: u128,
) -> Result<OrderView, ErrorView> {
    if price == 0 {
        Err(ErrorView::InvalidPrice { message: no_price_text() })
    } else if info.funds.len() != 1 {
        Err(ErrorView::InvalidFunds { message: ask_count_text() })
    } else {
        match config_of(m) {
            Err(e) => Err(ErrorView::Std(e)),
            Ok(cfg) => {
                let coin = info.funds[0];
                if coin.amount == 0 || coin.amount % cfg.ask_increment != 0 {
                    Err(ErrorView::InvalidFunds { message: ask_amount_text(coin.amount) })
                } else if coin.denom != cfg.ask_denom {
                    Err(
                        ErrorView::InvalidFunds {
                            message: ask_denom_text(coin.denom, cfg.ask_denom),
                        },
                    )
                } else if info.sender == cfg.contract_admin {
                    Err(ErrorView::Unauthorized)
                } else {
                    match held(m, ask_side(), id) {
                        Err(e) => Err(ErrorView::Std(e)),
                        Ok(Some(_)) => Err(ErrorView::DuplicateAsk { id }),
                        Ok(None) => match checked_ask_proceeds(coin.amount, price, cfg.ask_increment) {
                            Err(e) => Err(e),
                            Ok(proceeds) => Ok(
                                OrderView {
                                    id,
                                    price,
                                    ts: now,
                                    owner: info.sender,
                                    funds: coin.amount,
                                    funds_denom: coin.denom,
                                    proceeds,
                                },
                            ),
                        },
                    }
                }
            },
        }
    }
}

/// The response to an order that was taken into the book.
fn ingested(action: &str, id: String) -> (r: Response)
    ensures
        r@ == ingest_response(action@, id@),
{
    let mut attributes: Vec<Attribute> = Vec::new();
    attributes.push(Attribute { key: "action".to_owned(), value: action.to_owned() });
    attributes.push(Attribute { key: "id".to_owned(), value: id });
    let r = Response { messages: Vec::new(), attributes };
    assert(r@.messages =~= Seq::empty());
    assert(r@.attributes =~= ingest_response(action@, id@).attributes);
    r
}

/// Validate a bid and file it for later matching.
pub fn try_bid(store: &mut Store, env: Env, info: MessageInfo, id: String, price: u128) -> (r:
    Result<Response, ContractError>)
    ensures
        match bid_ingest(entries(*old(store)), env.seconds(), info@, id@, price) {
            Ok(bid) => r is Ok && r->Ok_0@ == ingest_response("bid"@, id@) && entries(
                *final(store),
            ) == entries(*old(store)).insert(place(bid_side(), id@), order_bytes(bid)),
            Err(e) => failure(r) == Some(e) && entries(*final(store)) == entries(*old(store)),
        },
        sound_book(entries(*old(store))) ==> sound_book(entries(*final(store))),
        sound_book(entries(*old(store))) && r is Ok ==> shows(
            entries(*final(store)),
            bid_side(),
            bid_ingest(entries(*old(store)), env.seconds(), info@, id@, price)->Ok_0,
        ),
{
    let ghost sent = info@;
    let ghost named = id@;
    if price == 0 {
        return Err(ContractError::InvalidPrice { message: "price must be > 0".to_owned() });
    }
    if info.funds.len() != 1 {
        return Err(
            ContractError::InvalidFunds {
                message: "invalid number of bid funds provided".to_owned(),
            },
        );
    }
    assert(info@.funds[0] == info.funds@[0]@);
    let state = config_read(store)?;
    let amount = info.funds[0].amount;
    if amount == 0 {
        return Err(ContractError::InvalidFunds { message: "bid amount must be > 0".to_owned() });
    }
    if !(info.funds[0].denom == state.bid_denom) {
        let mut message = joined("invalid bid denom: got ", info.funds[0].denom.as_str());
        message.append(", require ");
        message.append(state.bid_denom.as_str());
        return Err(ContractError::InvalidFunds { message });
    }
    if info.sender == state.contract_admin {
        return Err(ContractError::Unauthorized {  });
    }
    if load::<BidOrder>(store, &id)?.is_some() {
        return Err(ContractError::DuplicateBid { id });
    }
    let proceeds = proceeds_of_bid(amount, price, state.ask_increment)?;
    let order = BidOrder {
        id: id.clone(),
        price,
        ts: env.seconds(),
        bidder: info.sender,
        funds: amount,
        funds_denom: info.funds[0].denom.clone(),
        proceeds,
    };
    save(store, &order);
    proof {
        if sound_book(entries(*old(store))) {
            lemma_bid_keeps_book(entries(*old(store)), env.seconds(), sent, named, price);
        }
    }
    Ok(ingested("bid", id))
}

/// Validate an ask and file it for later matching.
pub fn try_ask(store: &mut Store, env: Env, info: MessageInfo, id: String, price: u128) -> (r:
    Result<Response, ContractError>)
    ensures
        match ask_ingest(entries(*old(store)), env.seconds(), info@, id@, price) {
            Ok(ask) => r is Ok && r->Ok_0@ == ingest_response("ask"@, id@) && entries(
                *final(store),
            ) == entries(*old(store)).insert(place(ask_side(), id@), order_bytes(ask)),
            Err(e) => failure(r) == Some(e) && entries(*final(store)) == entries(*old(store)),
        },
        sound_book(entries(*old(store))) ==> sound_book(entries(*final(store))),
        sound_book(entries(*old(store))) && r is Ok ==> shows(
            entries(*final(store)),
            ask_side(),
            ask_ingest(entries(*old(store)), env.seconds(), info@, id@, price)->Ok_0,
        ),
{
    let ghost sent = info@;
    let ghost named = id@;
    if price == 0 {
        return Err(ContractError::InvalidPrice { message: "price must be > 0".to_owned() });
    }
    if info.funds.len() != 1 {
        return Err(
            ContractError::InvalidFunds {
                message: "invalid number of ask funds provided".to_owned(),
            },
        );
    }
    assert(info@.funds[0] == info.funds@[0]@);
    let state = config_read(store)?;
    let amount = info.funds[0].amount;
    if amount == 0 || amount % state.ask_increment != 0 {
        let mut message = "ask amount must be > 0 in the required increments: got ".to_owned();
        message.append(decimal_text(amount).as_str());
        return Err(ContractError::InvalidFunds { message });
    }
    if !(info.funds[0].denom == state.ask_denom) {
        let mut message = joined("invalid ask denom: got ", info.funds[0].denom.as_str());
        message.append(", require ");
        message.append(state.ask_denom.as_str());
        return Err(ContractError::InvalidFunds { message });
    }
    if info.sender == state.contract_admin {
        return Err(ContractError::Unauthorized {  });
    }
    if load::<AskOrder>(store, &id)?.is_some() {
        return Err(ContractError::DuplicateAsk { id });
    }
    let proceeds = proceeds_of_ask(amount, price, state.ask_increment)?;
    let order = AskOrder {
        id: id.clone(),
        price,
        ts: env.seconds(),
        asker: info.sender,
        funds: amount,
        funds_denom: info.funds[0].denom.clone(),
        proceeds,
    };
    save(store, &order);
    proof {
        if sound_book(entries(*old(store))) {
            lemma_ask_keeps_book(entries(*old(store)), env.seconds(), sent, named, price);
        }
    }
    Ok(ingested("ask", id))
}

/// A bid is filed as the message gave it, open, not owned by the admin, and worth
/// exactly its proceeds at its price: `funds * increment == proceeds * price`, with
/// proceeds of whole increments.
pub proof fn lemma_filed_bid_is_integral(
    m: Entries,
    now: u64,
    info: MessageInfoView,
    id: Seq<char>,
    price: u128,
)
    requires
        bid_ingest(m, now, info, id, price) is Ok,
    ensures
        ({
            let bid = bid_ingest(m, now, info, id, price)->Ok_0;
            let cfg = config_of(m)->Ok_0;
            &&& config_of(m) is Ok
            &&& bid.funds * cfg.ask_increment == bid.proceeds * bid.price
            &&& bid.proceeds % cfg.ask_increment == 0
            &&& bid.id == id && bid.price == price && bid.ts == now && bid.owner == info.sender
            &&& bid.price > 0 && bid.funds > 0 && !bid.is_closed()
            &&& bid.funds_denom == cfg.bid_denom
            &&& bid.owner != cfg.contract_admin
        }),
{
    let cfg = config_of(m)->Ok_0;
    lemma_bid_proceeds_exact(info.funds[0].amount, price, cfg.ask_increment);
}

/// An ask is filed as the message gave it, open, not owned by the admin, and worth
/// exactly its proceeds per increment: `proceeds * increment == funds * price`, with
/// funds of whole increments.
pub proof fn lemma_filed_ask_is_integral(
    m: Entries,
    now: u64,
    info: MessageInfoView,
    id: Seq<char>,
    price: u128,
)
    requires
        ask_ingest(m, now, info, id, price) is Ok,
    ensures
        ({
            let ask = ask_ingest(m, now, info, id, price)->Ok_0;
            let cfg = config_of(m)->Ok_0;
            &&& config_of(m) is Ok
            &&& ask.proceeds * cfg.ask_increment == ask.funds * ask.price
            &&& ask.funds % cfg.ask_increment == 0
            &&& ask.id == id && ask.price == price && ask.ts == now && ask.owner == info.sender
            &&& ask.price > 0 && ask.funds > 0 && !ask.is_closed()
            &&& ask.funds_denom == cfg.ask_denom
            &&& ask.owner != cfg.contract_admin
        }),
{
    let cfg = config_of(m)->Ok_0;
    lemma_ask_proceeds_exact(info.funds[0].amount, price, cfg.ask_increment);
}

} // verus!
