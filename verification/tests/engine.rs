use orderbook::error::ContractError;
use orderbook::matching::match_orders;
use orderbook::msg::{Coin, Env, Transfer};
use orderbook::quantity::{
    checked_add, checked_div, checked_mul, checked_sub, proceeds_of_ask, proceeds_of_bid,
};
use orderbook::ranking::sort_price_time;
use orderbook::state::{AskOrder, BidOrder};
use orderbook::sweep::{fill_ask, match_attribute_of, sweep, Sweep, Update};
use orderbook::text::{decimal_text, joined};

const INCREMENT: u128 = 1_000_000_000;

fn bid(id: &str, price: u128, ts: u64, funds: u128, proceeds: u128) -> BidOrder {
    BidOrder {
        id: id.into(),
        price,
        ts,
        bidder: format!("owner-of-{}", id),
        funds,
        funds_denom: "stablecoin".into(),
        proceeds,
    }
}

fn ask(id: &str, price: u128, ts: u64, funds: u128, proceeds: u128) -> AskOrder {
    AskOrder {
        id: id.into(),
        price,
        ts,
        asker: format!("owner-of-{}", id),
        funds,
        funds_denom: "nhash".into(),
        proceeds,
    }
}

fn send(to: &str, amount: u128, denom: &str) -> Transfer {
    Transfer { to_address: to.into(), amount: Coin { denom: denom.into(), amount } }
}

#[test]
fn checked_arithmetic_gives_exact_values() {
    assert_eq!(checked_add(2, 3), Ok(5));
    assert_eq!(checked_sub(5, 3), Ok(2));
    assert_eq!(checked_sub(5, 5), Ok(0));
    assert_eq!(checked_mul(6, 7), Ok(42));
    assert_eq!(checked_div(42, 5), Ok(8));
    assert_eq!(checked_add(u128::MAX, 0), Ok(u128::MAX));
    assert_eq!(checked_mul(u128::MAX, 1), Ok(u128::MAX));
}

#[test]
fn checked_arithmetic_guards_its_limits() {
    assert_eq!(checked_add(u128::MAX, 1), Err(ContractError::Overflow {}));
    assert_eq!(checked_mul(u128::MAX, 2), Err(ContractError::Overflow {}));
    assert_eq!(checked_sub(3, 5), Err(ContractError::Underflow {}));
    assert_eq!(checked_div(3, 0), Err(ContractError::Overflow {}));
}

#[test]
fn ask_proceeds_are_units_times_price() {
    assert_eq!(proceeds_of_ask(10 * INCREMENT, 1, INCREMENT), Ok(10));
    assert_eq!(proceeds_of_ask(3 * INCREMENT, 7, INCREMENT), Ok(21));
    assert_eq!(proceeds_of_ask(0, 7, INCREMENT), Ok(0));
    assert_eq!(proceeds_of_ask(12, 5, 4), Ok(15));
}

#[test]
fn ask_proceeds_overflow_is_reported() {
    assert_eq!(proceeds_of_ask(4, u128::MAX, 2), Err(ContractError::Overflow {}));
    assert_eq!(proceeds_of_ask(2, u128::MAX, 2), Ok(u128::MAX));
}

#[test]
fn bid_proceeds_are_scaled_funds_over_price() {
    assert_eq!(proceeds_of_bid(10, 1, INCREMENT), Ok(10 * INCREMENT));
    assert_eq!(proceeds_of_bid(30, 15, INCREMENT), Ok(2 * INCREMENT));
    assert_eq!(proceeds_of_bid(0, 15, INCREMENT), Ok(0));
}

#[test]
fn bid_proceeds_must_be_integral() {
    assert_eq!(
        proceeds_of_bid(1, 15, INCREMENT),
        Err(ContractError::InvalidFunds {
            message: "bid price must yield an integral for proceeds".into()
        })
    );
    assert_eq!(
        proceeds_of_bid(3, 15, INCREMENT),
        Err(ContractError::InvalidFunds {
            message: "funds must yield a bid amount in the required increments".into()
        })
    );
}

#[test]
fn bid_proceeds_overflow_is_reported() {
    assert_eq!(proceeds_of_bid(u128::MAX, 1, INCREMENT), Err(ContractError::Overflow {}));
    assert_eq!(proceeds_of_bid(u128::MAX, 1, 1), Ok(u128::MAX));
}

#[test]
fn decimal_text_writes_numbers() {
    assert_eq!(decimal_text(0), "0");
    assert_eq!(decimal_text(9), "9");
    assert_eq!(decimal_text(10), "10");
    assert_eq!(decimal_text(123456789), "123456789");
    assert_eq!(decimal_text(1_000_000_000), "1000000000");
    assert_eq!(decimal_text(u128::MAX), "340282366920938463463374607431768211455");
    assert_eq!(joined("bid:", "b1"), "bid:b1");
}

#[test]
fn env_ticks_in_whole_seconds() {
    assert_eq!(Env { time_nanos: 0 }.seconds(), 0);
    assert_eq!(Env { time_nanos: 999_999_999 }.seconds(), 0);
    assert_eq!(Env { time_nanos: 1_000_000_000 }.seconds(), 1);
    assert_eq!(Env { time_nanos: 1_571_797_419_879_305_533 }.seconds(), 1_571_797_419);
}

#[test]
fn closed_orders_are_recognised() {
    assert!(bid("b", 1, 0, 0, 0).is_closed());
    assert!(!bid("b", 1, 0, 1, 0).is_closed());
    assert!(!bid("b", 1, 0, 0, 1).is_closed());
    assert!(ask("a", 1, 0, 0, 0).is_closed());
    assert!(!ask("a", 1, 0, 1, 0).is_closed());
    assert!(!ask("a", 1, 0, 0, 1).is_closed());
}

#[test]
fn match_of_equal_orders_closes_both() {
    let m = match_orders(bid("b", 1, 0, 10, 10 * INCREMENT), ask("a", 1, 0, 10 * INCREMENT, 10))
        .unwrap();
    assert_eq!(
        m.msgs,
        vec![send("owner-of-a", 10, "stablecoin"), send("owner-of-b", 10 * INCREMENT, "nhash")]
    );
    assert!(m.bid.is_closed());
    assert!(m.ask.is_closed());
    assert_eq!(m.bid.id, "b");
    assert_eq!(m.ask.id, "a");
}

#[test]
fn match_creates_no_value() {
    let b = bid("b", 3, 0, 30, 10 * INCREMENT);
    let a = ask("a", 2, 0, 4 * INCREMENT, 8);
    let m = match_orders(b.clone(), a.clone()).unwrap();
    let paid = m.msgs[0].amount.amount;
    let delivered = m.msgs[1].amount.amount;
    assert_eq!(paid, 8);
    assert_eq!(delivered, 4 * INCREMENT);
    assert_eq!(paid + m.ask.proceeds, a.proceeds);
    assert_eq!(delivered + m.bid.proceeds, b.proceeds);
    assert!(paid <= b.funds);
    assert!(delivered <= a.funds);
    assert_eq!(m.bid.funds, 22);
    assert_eq!(m.bid.proceeds, 6 * INCREMENT);
    assert!(m.ask.is_closed());
    assert_eq!(m.msgs.len(), 2);
}

#[test]
fn match_hands_back_what_a_paid_ask_still_holds() {
    // The bid pays the ask in full but is owed less base than the ask holds.
    let m = match_orders(bid("b", 2, 0, 10, 5 * INCREMENT), ask("a", 1, 0, 10 * INCREMENT, 10))
        .unwrap();
    assert_eq!(
        m.msgs,
        vec![
            send("owner-of-a", 10, "stablecoin"),
            send("owner-of-b", 5 * INCREMENT, "nhash"),
            send("owner-of-a", 5 * INCREMENT, "nhash"),
        ]
    );
    assert!(m.bid.is_closed());
    assert!(m.ask.is_closed());
}

#[test]
fn match_refuses_closed_orders() {
    assert_eq!(
        match_orders(bid("b", 1, 0, 0, 0), ask("a", 1, 0, INCREMENT, 1)),
        Err(ContractError::BidClosed {})
    );
    assert_eq!(
        match_orders(bid("b", 1, 0, 1, INCREMENT), ask("a", 1, 0, 0, 0)),
        Err(ContractError::AskClosed {})
    );
    // The bid is looked at first.
    assert_eq!(
        match_orders(bid("b", 1, 0, 0, 0), ask("a", 1, 0, 0, 0)),
        Err(ContractError::BidClosed {})
    );
}

#[test]
fn sort_puts_best_price_first_then_earliest() {
    let sorted = sort_price_time(vec![
        bid("low", 1, 5, 1, INCREMENT),
        bid("high-late", 2, 9, 2, INCREMENT),
        bid("high-early", 2, 3, 2, INCREMENT),
    ]);
    let ids: Vec<&str> = sorted.iter().map(|o| o.id.as_str()).collect();
    assert_eq!(ids, vec!["high-early", "high-late", "low"]);
}

#[test]
fn sort_keeps_equals_in_their_order() {
    let sorted = sort_price_time(vec![
        ask("x", 2, 7, INCREMENT, 2),
        ask("y", 2, 7, INCREMENT, 2),
        ask("top", 3, 9, INCREMENT, 3),
        ask("z", 2, 7, INCREMENT, 2),
    ]);
    let ids: Vec<&str> = sorted.iter().map(|o| o.id.as_str()).collect();
    assert_eq!(ids, vec!["top", "x", "y", "z"]);
    assert_eq!(sort_price_time(Vec::<AskOrder>::new()).len(), 0);
}

#[test]
fn match_attribute_names_both_orders() {
    let a = match_attribute_of(&"b1".to_string(), &"a1".to_string());
    assert_eq!(a.key, "orderbook.match");
    assert_eq!(a.value, "bid:b1,ask:a1");
}

#[test]
fn sweep_fills_an_ask_from_several_bids_in_order() {
    let asks = vec![ask("a", 1, 1, 10 * INCREMENT, 10)];
    let bids = vec![
        bid("b1", 2, 1, 8, 4 * INCREMENT),
        bid("b2", 1, 1, 3, 3 * INCREMENT),
        bid("b3", 1, 2, 5, 5 * INCREMENT),
    ];
    let done = sweep(asks, bids, 10).unwrap();
    assert_eq!(
        done.messages,
        vec![
            send("owner-of-a", 8, "stablecoin"),
            send("owner-of-b1", 4 * INCREMENT, "nhash"),
            send("owner-of-a", 2, "stablecoin"),
            send("owner-of-b2", 3 * INCREMENT, "nhash"),
            send("owner-of-a", 3 * INCREMENT, "nhash"),
        ]
    );
    let values: Vec<&str> = done.attributes.iter().map(|a| a.value.as_str()).collect();
    assert_eq!(values, vec!["bid:b1,ask:a", "bid:b2,ask:a"]);
    // b1 is closed and gone; b2 keeps the funds it did not need; b3 was not reached.
    assert_eq!(
        done.bids,
        vec![bid("b2", 1, 1, 1, 0), bid("b3", 1, 2, 5, 5 * INCREMENT)]
    );
    assert_eq!(
        done.updates,
        vec![
            Update::Ask(ask("a", 1, 1, 6 * INCREMENT, 2)),
            Update::Bid(bid("b1", 2, 1, 0, 0)),
            Update::Ask(ask("a", 1, 1, 0, 0)),
            Update::Bid(bid("b2", 1, 1, 1, 0)),
        ]
    );
}

#[test]
fn sweep_skips_bids_below_the_ask() {
    let done = sweep(
        vec![ask("a", 5, 1, INCREMENT, 5)],
        vec![bid("cheap", 4, 1, 4, INCREMENT)],
        10,
    )
    .unwrap();
    assert!(done.messages.is_empty());
    assert!(done.attributes.is_empty());
    assert!(done.updates.is_empty());
    assert_eq!(done.bids, vec![bid("cheap", 4, 1, 4, INCREMENT)]);
}

#[test]
fn sweep_leaves_out_orders_of_the_current_tick() {
    let asks = vec![ask("late-ask", 1, 10, INCREMENT, 1), ask("a", 1, 9, INCREMENT, 1)];
    let bids = vec![bid("late-bid", 9, 10, 9, INCREMENT), bid("b", 1, 9, 1, INCREMENT)];
    let done = sweep(asks, bids, 10).unwrap();
    assert_eq!(
        done.messages,
        vec![send("owner-of-a", 1, "stablecoin"), send("owner-of-b", INCREMENT, "nhash")]
    );
    assert_eq!(done.bids, vec![bid("late-bid", 9, 10, 9, INCREMENT)]);
    assert_eq!(
        done.updates,
        vec![Update::Ask(ask("a", 1, 9, 0, 0)), Update::Bid(bid("b", 1, 9, 0, 0))]
    );
}

#[test]
fn sweep_without_early_asks_is_empty() {
    let bids = vec![bid("b", 1, 1, 1, INCREMENT)];
    let done = sweep(vec![ask("a", 1, 10, INCREMENT, 1)], bids.clone(), 10).unwrap();
    assert!(done.messages.is_empty());
    assert!(done.attributes.is_empty());
    assert!(done.updates.is_empty());
    assert_eq!(done.bids, bids);
    let none = sweep(vec![], vec![], 10).unwrap();
    assert!(none.messages.is_empty() && none.updates.is_empty() && none.bids.is_empty());
}

#[test]
fn sweep_reports_a_closed_order_in_the_book() {
    assert_eq!(
        sweep(vec![ask("a", 1, 1, INCREMENT, 1)], vec![bid("b", 1, 1, 0, 0)], 10),
        Err(ContractError::BidClosed {})
    );
    assert_eq!(
        sweep(vec![ask("a", 1, 1, 0, 0)], vec![bid("b", 1, 1, 1, INCREMENT)], 10),
        Err(ContractError::AskClosed {})
    );
    // A closed ask that no bid meets is passed over.
    assert!(sweep(vec![ask("a", 5, 1, 0, 0)], vec![bid("b", 1, 1, 1, INCREMENT)], 10).is_ok());
}

#[test]
fn fill_ask_goes_on_from_the_sweep_it_is_given() {
    let st = Sweep {
        bids: vec![bid("b", 1, 1, 2, 2 * INCREMENT)],
        messages: vec![send("earlier", 1, "stablecoin")],
        attributes: vec![],
        updates: vec![],
    };
    let done = fill_ask(ask("a", 1, 1, INCREMENT, 1), st, 10).unwrap();
    assert_eq!(
        done.messages,
        vec![
            send("earlier", 1, "stablecoin"),
            send("owner-of-a", 1, "stablecoin"),
            send("owner-of-b", INCREMENT, "nhash"),
        ]
    );
    assert_eq!(done.bids, vec![bid("b", 1, 1, 1, INCREMENT)]);
}

#[test]
fn sweep_is_determined_by_its_input() {
    let asks = || vec![ask("a1", 2, 1, 3 * INCREMENT, 6), ask("a2", 1, 2, 2 * INCREMENT, 2)];
    let bids = || vec![bid("b1", 2, 1, 4, 2 * INCREMENT), bid("b2", 2, 3, 6, 3 * INCREMENT)];
    let first = sweep(asks(), bids(), 10).unwrap();
    let second = sweep(asks(), bids(), 10).unwrap();
    assert_eq!(first, second);
    assert!(!first.messages.is_empty());
}

#[test]
fn match_of_covered_orders_closes_one_and_keeps_whole_increments() {
    // Both orders as they are filed: the bid at 3, the ask at 2.
    let b = bid("b", 3, 0, 30, 10 * INCREMENT);
    let a = ask("a", 2, 0, 4 * INCREMENT, 8);
    let m = match_orders(b, a).unwrap();
    assert!(m.bid.is_closed() || m.ask.is_closed());
    assert_eq!(m.bid.proceeds % INCREMENT, 0);
    assert_eq!(m.ask.funds % INCREMENT, 0);
    assert!(m.bid.funds * INCREMENT >= m.bid.proceeds * m.bid.price);
    assert!(m.ask.proceeds * INCREMENT <= m.ask.funds * m.ask.price);
    // The other way round: the ask asks for more than the bid can pay.
    let m = match_orders(bid("b", 3, 0, 6, 2 * INCREMENT), ask("a", 2, 0, 5 * INCREMENT, 10))
        .unwrap();
    assert!(m.bid.is_closed());
    assert_eq!((m.ask.funds, m.ask.proceeds), (3 * INCREMENT, 4));
    assert!(m.ask.proceeds * INCREMENT <= m.ask.funds * m.ask.price);
}

#[test]
fn sweep_records_an_update_for_each_side_of_each_match() {
    let asks = vec![ask("a1", 2, 1, 3 * INCREMENT, 6), ask("a2", 1, 2, 2 * INCREMENT, 2)];
    let bids = vec![bid("b1", 2, 1, 4, 2 * INCREMENT), bid("b2", 2, 3, 6, 3 * INCREMENT)];
    let done = sweep(asks, bids, 10).unwrap();
    assert_eq!(done.updates.len(), 2 * done.attributes.len());
    for pair in done.updates.chunks(2) {
        match (&pair[0], &pair[1]) {
            (Update::Ask(a), Update::Bid(b)) => assert!(a.is_closed() || b.is_closed()),
            _ => panic!("unexpected order of updates"),
        }
    }
    assert!(done.bids.iter().all(|b| !b.is_closed()));
}
