//! The matching sweep over a book held in memory.

use vstd::prelude::*;
use vstd::string::StringExecFns;
use crate::error::{failure, ContractError, ErrorView};
use crate::matching::{match_orders, matched, MatchResult};
use crate::model::{lemma_views_add, lemma_views_push, lemma_views_remove, lemma_views_update, views};
use crate::msg::{Attribute, Transfer, TransferView};
use crate::state::{AskOrder, BidOrder, OrderView};

verus! {

/// A record to write back to the store: an order as a match left it. A closed order
/// is taken out of the store, an open one replaces what the store holds for it.
#[derive(Debug, PartialEq)]
pub enum Update {
    Ask(AskOrder),
    Bid(BidOrder),
}

/// An update as plain values.
pub struct UpdateView {
    pub is_bid: bool,
    pub order: OrderView,
}

impl View for Update {
    type V = UpdateView;

    open spec fn view(&self) -> UpdateView {
        match self {
            Update::Ask(ask) => UpdateView { is_bid: false, order: ask@ },
            Update::Bid(bid) => UpdateView { is_bid: true, order: bid@ },
        }
    }
}

/// A matching sweep in progress or done: the bids as they stand, with the transfers,
/// the audit trail and the updates that the matches so far have produced, in order.
#[derive(Debug, PartialEq)]
pub struct Sweep {
    pub bids: Vec<BidOrder>,
    pub messages: Vec<Transfer>,
    pub attributes: Vec<Attribute>,
    pub updates: Vec<Update>,
}

/// A sweep as plain values.
pub struct SweepView {
    pub bids: Seq<OrderView>,
    pub messages: Seq<TransferView>,
    pub attributes: Seq<(Seq<char>, Seq<char>)>,
    pub updates: Seq<UpdateView>,
}

impl View for Sweep {
    type V = SweepView;

    open spec fn view(&self) -> SweepView {
        SweepView {
            bids: views(self.bids@),
            messages: views(self.messages@),
            attributes: views(self.attributes@),
            updates: views(self.updates@),
        }
    }
}

/// The audit entry of one match.
pub open spec fn match_attribute(bid_id: Seq<char>, ask_id: Seq<char>) -> (Seq<char>, Seq<char>) {
    ("orderbook.match"@, "bid:"@ + bid_id + ",ask:"@ + ask_id)
}

/// A bid may be crossed with an ask at the tick `now`: it meets the ask's price and
/// arrived before the tick.
pub open spec fn crosses(bid: OrderView, ask: OrderView, now: u64) -> bool {
    bid.price >= ask.price && bid.ts < now
}

/// The sweep `st` after one match of its bid at `j` with `ask`, whose outcome is `m`:
/// a closed bid leaves the list, an open one is replaced; the ask's update is
/// recorded before the bid's.
pub open spec fn recorded(
    st: SweepView,
    j: int,
    m: crate::matching::MatchView,
    bid_id: Seq<char>,
    ask_id: Seq<char>,
) -> SweepView {
    SweepView {
        bids: if m.bid.is_closed() {
            st.bids.remove(j)
        } else {
            st.bids.update(j, m.bid)
        },
        messages: st.messages + m.msgs,
        attributes: st.attributes.push(match_attribute(bid_id, ask_id)),
        updates: st.updates.push(UpdateView { is_bid: false, order: m.ask }).push(
            UpdateView { is_bid: true, order: m.bid },
        ),
    }
}

/// The sweep `st` after `ask` has been crossed with the bids of `st` from position
/// `j` on, in order, until the ask is closed or the bids run out.
pub open spec fn filled(ask: OrderView, j: int, st: SweepView, now: u64) -> Result<
    SweepView,
    ErrorView,
>
    decreases st.bids.len() - j,
{
    if j < 0 || j >= st.bids.len() {
        Ok(st)
    } else if !crosses(st.bids[j], ask, now) {
        filled(ask, j + 1, st, now)
    } else if st.bids[j].is_closed() {
        Err(ErrorView::BidClosed)
    } else if ask.is_closed() {
        Err(ErrorView::AskClosed)
    } else {
        let m = matched(st.bids[j], ask);
        let next = recorded(st, j, m, st.bids[j].id, ask.id);
        if m.ask.is_closed() {
            Ok(next)
        } else if m.bid.is_closed() {
            filled(m.ask, j, next, now)
        } else {
            filled(m.ask, j + 1, next, now)
        }
    }
}

/// The sweep `st` after the asks from position `i` on that arrived before the tick
/// `now` have been filled, in order.
pub open spec fn swept_from(asks: Seq<OrderView>, i: int, st: SweepView, now: u64) -> Result<
    SweepView,
    ErrorView,
>
    decreases asks.len() - i,
{
    if i < 0 || i >= asks.len() {
        Ok(st)
    } else if !asks[i].before(now) {
        swept_from(asks, i + 1, st, now)
    } else {
        match filled(asks[i], 0, st, now) {
            Ok(next) => swept_from(asks, i + 1, next, now),
            Err(e) => Err(e),
        }
    }
}

/// A sweep that has matched nothing yet.
pub open spec fn fresh(bids: Seq<OrderView>) -> SweepView {
    SweepView {
        bids,
        messages: Seq::empty(),
        attributes: Seq::empty(),
        updates: Seq::empty(),
    }
}

/// The whole sweep of `asks` against `bids` at the tick `now`, both in price-time order.
pub open spec fn swept(bids: Seq<OrderView>, asks: Seq<OrderView>, now: u64) -> Result<
    SweepView,
    ErrorView,
> {
    swept_from(asks, 0, fresh(bids), now)
}

/// The audit entry that records a match of the bid `bid_id` with the ask `ask_id`.
pub fn match_attribute_of(bid_id: &String, ask_id: &String) -> (a: Attribute)
    ensures
        a@ == match_attribute(bid_id@, ask_id@),
{
    let mut value = "bid:".to_owned();
    value.append(bid_id.as_str());
    value.append(",ask:");
    value.append(ask_id.as_str());
    Attribute { key: "orderbook.match".to_owned(), value }
}

/// Cross `ask` with the bids of `st`, best first, until the ask is closed or no bid
/// is left that meets its price and arrived before the tick `now`.
pub fn fill_ask(ask: AskOrder, st: Sweep, now: u64) -> (r: Result<Sweep, ContractError>)
    ensures
        match filled(ask@, 0, st@, now) {
            Ok(v) => r is Ok && r->Ok_0@ == v,
            Err(e) => failure(r) == Some(e),
        },
{
    let ghost goal = filled(ask@, 0, st@, now);
    let Sweep { bids, messages, attributes, updates } = st;
    let mut bids = bids;
    let mut messages = messages;
    let mut attributes = attributes;
    let mut updates = updates;
    let mut open_ask = ask;
    let mut j: usize = 0;
    while j < bids.len()
        invariant
            j <= bids@.len(),
            goal == filled(ask@, 0, st@, now),
            goal == filled(
                open_ask@,
                j as int,
                SweepView {
                    bids: views(bids@),
                    messages: views(messages@),
                    attributes: views(attributes@),
                    updates: views(updates@),
                },
                now,
            ),
        decreases bids@.len() - j,
    {
        let ghost cur = SweepView {
            bids: views(bids@),
            messages: views(messages@),
            attributes: views(attributes@),
            updates: views(updates@),
        };
        assert(cur.bids[j as int] == bids@[j as int]@);
        if bids[j].price >= open_ask.price && bids[j].ts < now {
            let ghost at = j;
            let bid = bids[j].clone();
            let ghost bid0 = bid@;
            let ghost ask0 = open_ask@;
            let m = match match_orders(bid, open_ask.clone()) {
                Ok(m) => m,
                Err(e) => {
                    return Err(e);
                },
            };
            let ghost mv = m@;
            let MatchResult { bid: new_bid, ask: new_ask, msgs } = m;
            let mut msgs = msgs;
            proof {
                lemma_views_add(messages@, msgs@);
            }
            messages.append(&mut msgs);
            let attribute = match_attribute_of(&new_bid.id, &new_ask.id);
            proof {
                lemma_views_push(attributes@, attribute);
                lemma_views_push(updates@, Update::Ask(new_ask));
                lemma_views_push(updates@.push(Update::Ask(new_ask)), Update::Bid(new_bid));
            }
            attributes.push(attribute);
            updates.push(Update::Ask(new_ask.clone()));
            updates.push(Update::Bid(new_bid.clone()));
            if new_bid.is_closed() {
                proof {
                    lemma_views_remove(bids@, j as int);
                }
                bids.remove(j);
            } else {
                proof {
                    lemma_views_update(bids@, j as int, new_bid);
                }
                bids.set(j, new_bid);
                j = j + 1;
            }
            open_ask = new_ask;
            assert(SweepView {
                bids: views(bids@),
                messages: views(messages@),
                attributes: views(attributes@),
                updates: views(updates@),
            } == recorded(cur, at as int, mv, bid0.id, ask0.id));
            if open_ask.is_closed() {
                return Ok(Sweep { bids, messages, attributes, updates });
            }
        } else {
            j = j + 1;
        }
    }
    Ok(Sweep { bids, messages, attributes, updates })
}

/// Fill each ask that arrived before the tick `now`, in the order given, from the
/// bids given. Both lists are expected in price-time order.
pub fn sweep(asks: Vec<AskOrder>, bids: Vec<BidOrder>, now: u64) -> (r: Result<
    Sweep,
    ContractError,
>)
    ensures
        match swept(views(bids@), views(asks@), now) {
            Ok(v) => r is Ok && r->Ok_0@ == v,
            Err(e) => failure(r) == Some(e),
        },
{
    let ghost goal = swept(views(bids@), views(asks@), now);
    let mut st = Sweep {
        bids,
        messages: Vec::new(),
        attributes: Vec::new(),
        updates: Vec::new(),
    };
    assert(st@.messages =~= Seq::empty() && st@.attributes =~= Seq::empty() && st@.updates
        =~= Seq::empty());
    let mut i: usize = 0;
    while i < asks.len()
        invariant
            i <= asks@.len(),
            goal == swept(views(bids@), views(asks@), now),
            goal == swept_from(views(asks@), i as int, st@, now),
        decreases asks@.len() - i,
    {
        assert(views(asks@)[i as int] == asks@[i as int]@);
        if asks[i].ts < now {
            st = match fill_ask(asks[i].clone(), st, now) {
                Ok(next) => next,
                Err(e) => {
                    return Err(e);
                },
            };
        }
        i = i + 1;
    }
    Ok(st)
}

} // verus!
