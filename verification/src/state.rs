//! The configuration of a book and the orders on it.

use vstd::prelude::*;

verus! {

/// The configuration of a book, fixed when the book is set up.
#[derive(Debug, PartialEq)]
pub struct State {
    /// Denomination of ask funds and bid proceeds (the base).
    pub ask_denom: String,
    /// Base amounts move in whole multiples of this.
    pub ask_increment: u128,
    /// Denomination of bid funds and ask proceeds (the quote).
    pub bid_denom: String,
    /// The one principal that may run a match, and may not place orders.
    pub contract_admin: String,
}

/// A configuration as plain values.
pub struct StateView {
    pub ask_denom: Seq<char>,
    pub ask_increment: u128,
    pub bid_denom: Seq<char>,
    pub contract_admin: Seq<char>,
}

impl View for State {
    type V = StateView;

    open spec fn view(&self) -> StateView {
        StateView {
            ask_denom: self.ask_denom@,
            ask_increment: self.ask_increment,
            bid_denom: self.bid_denom@,
            contract_admin: self.contract_admin@,
        }
    }
}

impl Clone for State {
    fn clone(&self) -> (r: Self)
        ensures
            r == *self,
    {
        State {
            ask_denom: self.ask_denom.clone(),
            ask_increment: self.ask_increment,
            bid_denom: self.bid_denom.clone(),
            contract_admin: self.contract_admin.clone(),
        }
    }
}

/// An order of either side as plain values.
pub struct OrderView {
    pub id: Seq<char>,
    pub price: u128,
    pub ts: u64,
    /// Who placed the order: the bidder of a bid, the asker of an ask.
    pub owner: Seq<char>,
    pub funds: u128,
    pub funds_denom: Seq<char>,
    pub proceeds: u128,
}

impl OrderView {
    /// Nothing is left to give and nothing is owed.
    pub open spec fn is_closed(self) -> bool {
        self.proceeds == 0 && self.funds == 0
    }

    /// The order arrived before the tick `now` and so takes part in a match at `now`.
    pub open spec fn before(self, now: u64) -> bool {
        self.ts < now
    }
}

/// Persisted bid order.
#[derive(Debug, PartialEq)]
pub struct BidOrder {
    pub id: String,
    pub price: u128,
    pub ts: u64,
    pub bidder: String,
    /// The quote amount still available for transfer.
    pub funds: u128,
    pub funds_denom: String,
    /// The base amount the bidder is still owed.
    pub proceeds: u128,
}

impl View for BidOrder {
    type V = OrderView;

    open spec fn view(&self) -> OrderView {
        OrderView {
            id: self.id@,
            price: self.price,
            ts: self.ts,
            owner: self.bidder@,
            funds: self.funds,
            funds_denom: self.funds_denom@,
            proceeds: self.proceeds,
        }
    }
}

impl Clone for BidOrder {
    fn clone(&self) -> (r: Self)
        ensures
            r == *self,
    {
        BidOrder {
            id: self.id.clone(),
            price: self.price,
            ts: self.ts,
            bidder: self.bidder.clone(),
            funds: self.funds,
            funds_denom: self.funds_denom.clone(),
            proceeds: self.proceeds,
        }
    }
}

impl BidOrder {
    /// Nothing is left to give and nothing is owed.
    pub fn is_closed(&self) -> (r: bool)
        ensures
            r == self@.is_closed(),
    {
        self.proceeds == 0 && self.funds == 0
    }
}

/// Persisted ask order.
#[derive(Debug, PartialEq)]
pub struct AskOrder {
    pub id: String,
    pub price: u128,
    pub ts: u64,
    pub asker: String,
    /// The base amount still available for transfer.
    pub funds: u128,
    pub funds_denom: String,
    /// The quote amount the asker is still owed.
    pub proceeds: u128,
}

impl View for AskOrder {
    type V = OrderView;

    open spec fn view(&self) -> OrderView {
        OrderView {
            id: self.id@,
            price: self.price,
            ts: self.ts,
            owner: self.asker@,
            funds: self.funds,
            funds_denom: self.funds_denom@,
            proceeds: self.proceeds,
        }
    }
}

impl Clone for AskOrder {
    fn clone(&self) -> (r: Self)
        ensures
            r == *self,
    {
        AskOrder {
            id: self.id.clone(),
            price: self.price,
            ts: self.ts,
            asker: self.asker.clone(),
            funds: self.funds,
            funds_denom: self.funds_denom.clone(),
            proceeds: self.proceeds,
        }
    }
}

impl AskOrder {
    /// Nothing is left to give and nothing is owed.
    pub fn is_closed(&self) -> (r: bool)
        ensures
            r == self@.is_closed(),
    {
        self.proceeds == 0 && self.funds == 0
    }
}

} // verus!
