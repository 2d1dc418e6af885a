//! The messages that the book takes and the answers that it gives.

use vstd::prelude::*;
use crate::model::views;
use crate::state::{AskOrder, BidOrder, OrderView};

verus! {

/// An amount of one denomination.
#[derive(Debug, PartialEq)]
pub struct Coin {
    pub denom: String,
    pub amount: u128,
}

/// A coin as plain values.
pub struct CoinView {
    pub denom: Seq<char>,
    pub amount: u128,
}

impl View for Coin {
    type V = CoinView;

    open spec fn view(&self) -> CoinView {
        CoinView { denom: self.denom@, amount: self.amount }
    }
}

/// An instruction to the bank: pay `amount` out of escrow to `to_address`.
#[derive(Debug, PartialEq)]
pub struct Transfer {
    pub to_address: String,
    pub amount: Coin,
}

/// A transfer as plain values.
pub struct TransferView {
    pub to_address: Seq<char>,
    pub denom: Seq<char>,
    pub amount: u128,
}

impl View for Transfer {
    type V = TransferView;

    open spec fn view(&self) -> TransferView {
        TransferView {
            to_address: self.to_address@,
            denom: self.amount.denom@,
            amount: self.amount.amount,
        }
    }
}

/// One entry of the audit trail.
#[derive(Debug, PartialEq)]
pub struct Attribute {
    pub key: String,
    pub value: String,
}

impl View for Attribute {
    type V = (Seq<char>, Seq<char>);

    open spec fn view(&self) -> (Seq<char>, Seq<char>) {
        (self.key@, self.value@)
    }
}

/// What an operation hands back to the host: transfers for the bank, in order,
/// and the audit trail.
#[derive(Debug, PartialEq)]
pub struct Response {
    pub messages: Vec<Transfer>,
    pub attributes: Vec<Attribute>,
}

/// A response as plain values.
pub struct ResponseView {
    pub messages: Seq<TransferView>,
    pub attributes: Seq<(Seq<char>, Seq<char>)>,
}

impl View for Response {
    type V = ResponseView;

    open spec fn view(&self) -> ResponseView {
        ResponseView {
            messages: views(self.messages@),
            attributes: views(self.attributes@),
        }
    }
}

/// Who sent a message, and the funds that came with it.
#[derive(Debug, PartialEq)]
pub struct MessageInfo {
    pub sender: String,
    pub funds: Vec<Coin>,
}

/// The sender and the funds of a message as plain values.
pub struct MessageInfoView {
    pub sender: Seq<char>,
    pub funds: Seq<CoinView>,
}

impl View for MessageInfo {
    type V = MessageInfoView;

    open spec fn view(&self) -> MessageInfoView {
        MessageInfoView { sender: self.sender@, funds: views(self.funds@) }
    }
}

/// The host's clock at the time of a message, in nanoseconds.
#[derive(Debug, PartialEq, Clone, Copy)]
pub struct Env {
    pub time_nanos: u64,
}

impl Env {
    /// The tick of this moment: whole seconds.
    pub open spec fn spec_seconds(self) -> u64 {
        (self.time_nanos / 1_000_000_000) as u64
    }

    /// The tick of this moment: whole seconds.
    #[verifier::when_used_as_spec(spec_seconds)]
    pub fn seconds(self) -> (s: u64)
        ensures
            s == self.spec_seconds(),
    {
        self.time_nanos / 1_000_000_000
    }
}

/// What a book is set up with: the denomination that it is quoted in.
#[derive(Debug, PartialEq)]
pub struct InitMsg {
    pub bid_denom: String,
}

/// What a book can be told to do.
#[derive(Debug, PartialEq)]
pub enum ExecuteMsg {
    /// Offer `price` quote sub-units for each base increment.
    Bid { id: String, price: u128 },
    /// Ask `price` quote sub-units for each base increment.
    Ask { id: String, price: u128 },
    /// Cross each ask with the bids that meet its price.
    Match {  },
}

/// What a book can be asked.
#[derive(Debug, PartialEq)]
pub enum QueryMsg {
    GetBidOrders {  },
    GetAskOrders {  },
    GetOrderbook {  },
}

/// The bids of the book in price-time order.
#[derive(Debug, PartialEq)]
pub struct BidOrders {
    pub bid_orders: Vec<BidOrder>,
}

/// The asks of the book in price-time order.
#[derive(Debug, PartialEq)]
pub struct AskOrders {
    pub ask_orders: Vec<AskOrder>,
}

/// Both sides of the book, each in price-time order.
#[derive(Debug, PartialEq)]
pub struct Orderbook {
    pub bid_orders: Vec<BidOrder>,
    pub ask_orders: Vec<AskOrder>,
}

impl View for BidOrders {
    type V = Seq<OrderView>;

    open spec fn view(&self) -> Seq<OrderView> {
        views(self.bid_orders@)
    }
}

impl View for AskOrders {
    type V = Seq<OrderView>;

    open spec fn view(&self) -> Seq<OrderView> {
        views(self.ask_orders@)
    }
}

/// Both sides of a book as plain values.
pub struct BookView {
    pub bid_orders: Seq<OrderView>,
    pub ask_orders: Seq<OrderView>,
}

impl View for Orderbook {
    type V = BookView;

    open spec fn view(&self) -> BookView {
        BookView { bid_orders: views(self.bid_orders@), ask_orders: views(self.ask_orders@) }
    }
}

/// The answer to a query.
#[derive(Debug, PartialEq)]
pub enum QueryResponse {
    BidOrders(BidOrders),
    AskOrders(AskOrders),
    Orderbook(Orderbook),
}

/// The answer to a query as plain values.
pub enum QueryView {
    BidOrders(Seq<OrderView>),
    AskOrders(Seq<OrderView>),
    Orderbook(BookView),
}

impl View for QueryResponse {
    type V = QueryView;

    open spec fn view(&self) -> QueryView {
        match self {
            QueryResponse::BidOrders(b) => QueryView::BidOrders(b@),
            QueryResponse::AskOrders(a) => QueryView::AskOrders(a@),
            QueryResponse::Orderbook(o) => QueryView::Orderbook(o@),
        }
    }
}

} // verus!
