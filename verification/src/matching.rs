//! Crossing one bid with one ask.

use vstd::prelude::*;
use crate::error::{failure, ContractError, ErrorView};
use crate::model::views;
use crate::msg::{Coin, Transfer, TransferView};
use crate::state::{AskOrder, BidOrder, OrderView};

verus! {

/// The outcome of crossing one bid with one ask.
#[derive(Debug, PartialEq)]
pub struct MatchResult {
    pub bid: BidOrder,
    pub ask: AskOrder,
    pub msgs: Vec<Transfer>,
}

/// The outcome of crossing one bid with one ask, as plain values.
pub struct MatchView {
    pub bid: OrderView,
    pub ask: OrderView,
    pub msgs: Seq<TransferView>,
}

impl View for MatchResult {
    type V = MatchView;

    open spec fn view(&self) -> MatchView {
        MatchView {
            bid: self.bid@,
            ask: self.ask@,
            msgs: views(self.msgs@),
        }
    }
}

/// Quote paid to the asker: what the ask is still owed, as far as the bid's funds reach.
pub open spec fn pay_to_asker(bid: OrderView, ask: OrderView) -> u128 {
    if ask.proceeds < bid.funds {
        ask.proceeds
    } else {
        bid.funds
    }
}

/// Base delivered to the bidder: what the bid is still owed, as far as the ask's funds reach.
pub open spec fn deliver_to_bidder(bid: OrderView, ask: OrderView) -> u128 {
    if bid.proceeds < ask.funds {
        bid.proceeds
    } else {
        ask.funds
    }
}

/// Base handed back to the asker: what the ask still holds once it has been paid in full.
pub open spec fn refund_to_asker(bid: OrderView, ask: OrderView) -> u128 {
    if ask.proceeds <= bid.funds {
        (ask.funds - deliver_to_bidder(bid, ask)) as u128
    } else {
        0
    }
}

/// The two orders and the transfers after crossing an open bid with an open ask.
pub open spec fn matched(bid: OrderView, ask: OrderView) -> MatchView {
    let pay = pay_to_asker(bid, ask);
    let deliver = deliver_to_bidder(bid, ask);
    let refund = refund_to_asker(bid, ask);
    let payment = TransferView { to_address: ask.owner, denom: bid.funds_denom, amount: pay };
    let delivery = TransferView { to_address: bid.owner, denom: ask.funds_denom, amount: deliver };
    let handback = TransferView { to_address: ask.owner, denom: ask.funds_denom, amount: refund };
    MatchView {
        bid: OrderView {
            funds: (bid.funds - pay) as u128,
            proceeds: (bid.proceeds - deliver) as u128,
            ..bid
        },
        ask: OrderView {
            funds: (ask.funds - deliver - refund) as u128,
            proceeds: (ask.proceeds - pay) as u128,
            ..ask
        },
        msgs: if refund > 0 {
            seq![payment, delivery, handback]
        } else {
            seq![payment, delivery]
        },
    }
}

/// Cross a bid with an ask: pay the asker in quote, deliver base to the bidder,
/// and hand a fully paid ask what it still holds.
pub fn match_orders(bid: BidOrder, ask: AskOrder) -> (r: Result<MatchResult, ContractError>)
    ensures
        bid@.is_closed() ==> failure(r) == Some(ErrorView::BidClosed),
        !bid@.is_closed() && ask@.is_closed() ==> failure(r) == Some(ErrorView::AskClosed),
        !bid@.is_closed() && !ask@.is_closed() ==> r is Ok && r->Ok_0@ == matched(bid@, ask@),
{
    if bid.is_closed() {
        return Err(ContractError::BidClosed {  });
    }
    if ask.is_closed() {
        return Err(ContractError::AskClosed {  });
    }
    let ghost bid0 = bid@;
    let ghost ask0 = ask@;
    let mut ask = ask;
    let mut bid = bid;
    let mut msgs: Vec<Transfer> = Vec::new();

    // Quote to the asker.
    if ask.proceeds < bid.funds {
        let amt = Coin { denom: bid.funds_denom.clone(), amount: ask.proceeds };
        msgs.push(Transfer { to_address: ask.asker.clone(), amount: amt });
        bid.funds = bid.funds - ask.proceeds;
        ask.proceeds = 0;
    } else {
        let amt = Coin { denom: bid.funds_denom.clone(), amount: bid.funds };
        msgs.push(Transfer { to_address: ask.asker.clone(), amount: amt });
        ask.proceeds = ask.proceeds - bid.funds;
        bid.funds = 0;
    }

    // Base to the bidder.
    if bid.proceeds < ask.funds {
        let amt = Coin { denom: ask.funds_denom.clone(), amount: bid.proceeds };
        msgs.push(Transfer { to_address: bid.bidder.clone(), amount: amt });
        ask.funds = ask.funds - bid.proceeds;
        bid.proceeds = 0;
    } else {
        let amt = Coin { denom: ask.funds_denom.clone(), amount: ask.funds };
        msgs.push(Transfer { to_address: bid.bidder.clone(), amount: amt });
        bid.proceeds = bid.proceeds - ask.funds;
        ask.funds = 0;
    }

    // The ask was paid in full and holds more base than it had to give.
    if ask.proceeds == 0 && ask.funds != 0 {
        let refund = Coin { denom: ask.funds_denom.clone(), amount: ask.funds };
        msgs.push(Transfer { to_address: ask.asker.clone(), amount: refund });
        ask.funds = 0;
    }
    let res = MatchResult { bid, ask, msgs };
    assert(res@.msgs =~= matched(bid0, ask0).msgs);
    Ok(res)
}

/// A bid holds at least the quote that its outstanding proceeds cost at its own price.
pub open spec fn bid_covered(bid: OrderView, increment: u128) -> bool {
    bid.funds * increment >= bid.proceeds * bid.price
}

/// An ask holds at least the base that its outstanding proceeds buy at its own price.
pub open spec fn ask_covered(ask: OrderView, increment: u128) -> bool {
    ask.proceeds * increment <= ask.funds * ask.price
}

/// No value is created by a match: what the asker is paid comes off what the ask is
/// owed and out of the bid's funds, what the bidder gets comes off what the bid is owed
/// and out of the ask's funds, and every transfer names its owner and denomination.
pub proof fn lemma_match_creates_no_value(bid: OrderView, ask: OrderView)
    ensures
        ({
            let m = matched(bid, ask);
            &&& m.msgs.len() >= 2
            &&& m.msgs[0].to_address == ask.owner
            &&& m.msgs[0].denom == bid.funds_denom
            &&& m.msgs[1].to_address == bid.owner
            &&& m.msgs[1].denom == ask.funds_denom
            &&& m.msgs[0].amount + m.ask.proceeds == ask.proceeds
            &&& m.msgs[1].amount + m.bid.proceeds == bid.proceeds
            &&& m.msgs[0].amount <= bid.funds
            &&& m.msgs[1].amount <= ask.funds
            &&& m.msgs[0].amount + m.bid.funds == bid.funds
            &&& m.msgs.len() == 2 ==> m.msgs[1].amount + m.ask.funds == ask.funds
            &&& m.msgs.len() > 2 ==> {
                &&& m.msgs.len() == 3
                &&& m.msgs[2].to_address == ask.owner
                &&& m.msgs[2].denom == ask.funds_denom
                &&& m.msgs[2].amount > 0
                &&& m.msgs[1].amount + m.msgs[2].amount + m.ask.funds == ask.funds
            }
        }),
{
}

/// A match changes only the residuals of the two orders, and never raises one.
pub proof fn lemma_match_keeps_identity(bid: OrderView, ask: OrderView)
    ensures
        ({
            let m = matched(bid, ask);
            &&& m.bid == OrderView { funds: m.bid.funds, proceeds: m.bid.proceeds, ..bid }
            &&& m.ask == OrderView { funds: m.ask.funds, proceeds: m.ask.proceeds, ..ask }
            &&& 0 <= m.bid.funds <= bid.funds
            &&& 0 <= m.bid.proceeds <= bid.proceeds
            &&& 0 <= m.ask.funds <= ask.funds
            &&& 0 <= m.ask.proceeds <= ask.proceeds
        }),
{
}

/// Where the bid's price meets the ask's and both orders are covered, a match closes
/// at least one of the two, and leaves both covered.
pub proof fn lemma_match_closes_one(bid: OrderView, ask: OrderView, increment: u128)
    requires
        increment > 0,
        bid.price >= ask.price,
        bid_covered(bid, increment),
        ask_covered(ask, increment),
    ensures
        matched(bid, ask).bid.is_closed() || matched(bid, ask).ask.is_closed(),
        bid_covered(matched(bid, ask).bid, increment),
        ask_covered(matched(bid, ask).ask, increment),
{
    let m = matched(bid, ask);
    let i = increment as int;
    let bf = bid.funds as int;
    let bp = bid.proceeds as int;
    let bq = bid.price as int;
    let af = ask.funds as int;
    let ap = ask.proceeds as int;
    let aq = ask.price as int;
    if ap <= bf {
        // The ask is paid in full and closes.
        if bp > af {
            assert((bf - ap) * i >= (bp - af) * bq) by (nonlinear_arith)
                requires
                    bf * i >= bp * bq,
                    ap * i <= af * aq,
                    bq >= aq,
                    af >= 0,
            ;
        } else {
            assert((bf - ap) * i >= 0 * bq) by (nonlinear_arith)
                requires
                    bf >= ap,
                    i > 0,
            ;
        }
        assert(0 * i <= 0 * aq) by (nonlinear_arith);
    } else {
        // The bid's funds are spent; it is owed less than the ask holds.
        assert(bp < af) by (nonlinear_arith)
            requires
                ap > bf,
                bf * i >= bp * bq,
                ap * i <= af * aq,
                bq >= aq,
                i > 0,
                aq >= 0,
                bp >= 0,
                af >= 0,
        ;
        assert((ap - bf) * i <= (af - bp) * aq) by (nonlinear_arith)
            requires
                bf * i >= bp * bq,
                ap * i <= af * aq,
                bq >= aq,
                bp >= 0,
        ;
        assert(0 * i >= 0 * bq) by (nonlinear_arith);
    }
}

/// A bid is in form: it is covered, and what it is owed is a whole number of
/// increments.
pub open spec fn bid_in_form(bid: OrderView, increment: u128) -> bool {
    bid_covered(bid, increment) && bid.proceeds % increment == 0
}

/// An ask is in form: it is covered, and what it holds is a whole number of
/// increments.
pub open spec fn ask_in_form(ask: OrderView, increment: u128) -> bool {
    ask_covered(ask, increment) && ask.funds % increment == 0
}

/// Where the bid's price meets the ask's and both orders are in form, a match
/// closes at least one of the two, and leaves both in form.
pub proof fn lemma_match_keeps_form(bid: OrderView, ask: OrderView, increment: u128)
    requires
        increment > 0,
        bid.price >= ask.price,
        bid_in_form(bid, increment),
        ask_in_form(ask, increment),
    ensures
        matched(bid, ask).bid.is_closed() || matched(bid, ask).ask.is_closed(),
        bid_in_form(matched(bid, ask).bid, increment),
        ask_in_form(matched(bid, ask).ask, increment),
{
    lemma_match_closes_one(bid, ask, increment);
    let i = increment as int;
    let bp = bid.proceeds as int;
    let af = ask.funds as int;
    if bp >= af {
        vstd::arithmetic::div_mod::lemma_sub_mod_noop(bp, af, i);
    } else {
        vstd::arithmetic::div_mod::lemma_sub_mod_noop(af, bp, i);
    }
    vstd::arithmetic::div_mod::lemma_small_mod(0, i as nat);
}

} // verus!
