use cosmwasm_std::testing::MockStorage;
use orderbook::book::config_read;
use orderbook::contract::{execute, instantiate, query};
use orderbook::error::ContractError;
use orderbook::msg::{
    Coin, Env, ExecuteMsg, InitMsg, MessageInfo, Orderbook, QueryMsg, QueryResponse, Response,
    Transfer,
};
use orderbook::state::{AskOrder, BidOrder};
use orderbook::store::Store;

fn mock_env() -> Env {
    Env { time_nanos: 1_571_797_419_879_305_533 }
}

fn mock_info(sender: &str, funds: Vec<Coin>) -> MessageInfo {
    MessageInfo { sender: sender.to_string(), funds }
}

fn coin(amount: u128, denom: &str) -> Coin {
    Coin { denom: denom.to_string(), amount }
}

fn init(store: &mut Store) -> Response {
    instantiate(
        store,
        mock_env(),
        mock_info("admin", vec![]),
        InitMsg { bid_denom: "stablecoin".into() },
    )
    .unwrap()
}

fn bids_of(store: &Store) -> Vec<BidOrder> {
    match query(store, mock_env(), QueryMsg::GetBidOrders {}).unwrap() {
        QueryResponse::BidOrders(rep) => rep.bid_orders,
        _ => panic!("unexpected answer"),
    }
}

fn asks_of(store: &Store) -> Vec<AskOrder> {
    match query(store, mock_env(), QueryMsg::GetAskOrders {}).unwrap() {
        QueryResponse::AskOrders(rep) => rep.ask_orders,
        _ => panic!("unexpected answer"),
    }
}

fn book_of(store: &Store) -> Orderbook {
    match query(store, mock_env(), QueryMsg::GetOrderbook {}).unwrap() {
        QueryResponse::Orderbook(rep) => rep,
        _ => panic!("unexpected answer"),
    }
}

fn place_bid(store: &mut Store, amount: u128, price: u128) -> Result<Response, ContractError> {
    execute(
        store,
        mock_env(),
        mock_info("bidder", vec![coin(amount, "stablecoin")]),
        ExecuteMsg::Bid { id: "test-bid".into(), price },
    )
}

fn place_ask(store: &mut Store, amount: u128, price: u128) -> Result<Response, ContractError> {
    execute(
        store,
        mock_env(),
        mock_info("asker", vec![coin(amount, "nhash")]),
        ExecuteMsg::Ask { id: "test-ask".into(), price },
    )
}

fn later(seconds: u64) -> Env {
    Env { time_nanos: mock_env().time_nanos + seconds * 1_000_000_000 }
}

fn check_sends(messages: &Vec<Transfer>, to_asker: Coin, to_bidder: Coin) {
    for msg in messages {
        if msg.to_address == "asker" {
            assert_eq!(msg.amount, to_asker);
        } else {
            assert_eq!(msg.to_address, "bidder");
            assert_eq!(msg.amount, to_bidder);
        }
    }
}

#[test]
fn contract_valid_init() {
    let mut storage = MockStorage::new();
    let mut store = Store::new(&mut storage);

    let res = init(&mut store);

    // Nothing is handed out and nothing is on the book yet.
    assert_eq!(res, Response { messages: vec![], attributes: vec![] });
    let rep = book_of(&store);
    assert_eq!(rep.bid_orders.len(), 0);
    assert_eq!(rep.ask_orders.len(), 0);
    assert_eq!(
        config_read(&store).unwrap(),
        orderbook::state::State {
            ask_denom: "nhash".into(),
            ask_increment: 1_000_000_000,
            bid_denom: "stablecoin".into(),
            contract_admin: "admin".into(),
        }
    );
}

#[test]
fn valid_init() {
    let mut storage = MockStorage::new();
    let mut store = Store::new(&mut storage);

    let res = init(&mut store);

    // No messages were created.
    assert_eq!(0, res.messages.len());

    let config_state = config_read(&store).unwrap();
    assert_eq!(config_state.ask_denom, "nhash");
    assert_eq!(config_state.ask_increment, 1_000_000_000);
    assert_eq!(config_state.bid_denom, "stablecoin");
    assert_eq!(config_state.contract_admin, "admin");
}

#[test]
fn persist_bid_order() {
    let mut storage = MockStorage::new();
    let mut store = Store::new(&mut storage);
    init(&mut store);

    // Buy 10 hash at 1 stablecoin/hash price
    place_bid(&mut store, 10, 1).unwrap();

    let bid_orders = bids_of(&store);
    assert_eq!(bid_orders.len(), 1);
    assert_eq!(bid_orders[0].id, "test-bid");
    assert_eq!(bid_orders[0].price, 1);
    assert_eq!(bid_orders[0].funds, 10);
    assert_eq!(bid_orders[0].proceeds, 10_000_000_000);
    assert_eq!(bid_orders[0].funds_denom, "stablecoin");
    assert_eq!(bid_orders[0].bidder, "bidder");
    assert_eq!(bid_orders[0].ts, 1_571_797_419);
}

#[test]
fn persist_ask_order() {
    let mut storage = MockStorage::new();
    let mut store = Store::new(&mut storage);
    init(&mut store);

    // Sell 10 hash at 1 stablecoin/hash price
    place_ask(&mut store, 10_000_000_000, 1).unwrap();

    let ask_orders = asks_of(&store);
    assert_eq!(ask_orders.len(), 1);
    assert_eq!(ask_orders[0].id, "test-ask");
    assert_eq!(ask_orders[0].price, 1);
    assert_eq!(ask_orders[0].funds, 10_000_000_000);
    assert_eq!(ask_orders[0].proceeds, 10);
    assert_eq!(ask_orders[0].funds_denom, "nhash");
    assert_eq!(ask_orders[0].asker, "asker");
}

#[test]
fn direct_match() {
    let mut storage = MockStorage::new();
    let mut store = Store::new(&mut storage);
    init(&mut store);

    place_bid(&mut store, 10, 1).unwrap();
    place_ask(&mut store, 10_000_000_000, 1).unwrap();

    // Both orders were added to the orderbook.
    let rep = book_of(&store);
    assert_eq!(rep.bid_orders.len(), 1);
    assert_eq!(rep.ask_orders.len(), 1);

    // Match in a later block; the admin must execute it.
    let res = execute(&mut store, later(3), mock_info("admin", vec![]), ExecuteMsg::Match {})
        .unwrap();

    assert_eq!(res.messages.len(), 2);
    check_sends(&res.messages, coin(10, "stablecoin"), coin(10_000_000_000, "nhash"));
    assert_eq!(res.messages[0].to_address, "asker");
    assert_eq!(res.messages[1].to_address, "bidder");

    assert_eq!(res.attributes.len(), 1);
    assert_eq!(res.attributes[0].key, "orderbook.match");
    assert_eq!(res.attributes[0].value, "bid:test-bid,ask:test-ask");

    // Both orders were removed from the orderbook.
    let rep = book_of(&store);
    assert_eq!(rep.bid_orders.len(), 0);
    assert_eq!(rep.ask_orders.len(), 0);
}

#[test]
fn partial_match_bid() {
    let mut storage = MockStorage::new();
    let mut store = Store::new(&mut storage);
    init(&mut store);

    // Buy 10 hash, sell 5 hash, both at 1 stablecoin/hash
    place_bid(&mut store, 10, 1).unwrap();
    place_ask(&mut store, 5_000_000_000, 1).unwrap();

    let rep = book_of(&store);
    assert_eq!(rep.bid_orders.len(), 1);
    assert_eq!(rep.ask_orders.len(), 1);

    let res = execute(&mut store, later(3), mock_info("admin", vec![]), ExecuteMsg::Match {})
        .unwrap();

    assert_eq!(res.messages.len(), 2);
    check_sends(&res.messages, coin(5, "stablecoin"), coin(5_000_000_000, "nhash"));

    assert_eq!(res.attributes.len(), 1);
    assert_eq!(res.attributes[0].key, "orderbook.match");
    assert_eq!(res.attributes[0].value, "bid:test-bid,ask:test-ask");

    // The bid order was updated in the orderbook.
    let rep = book_of(&store);
    assert_eq!(rep.bid_orders.len(), 1);
    assert_eq!(rep.ask_orders.len(), 0);

    // There are still 5 hash proceeds in the bid order
    assert_eq!(rep.bid_orders[0].id, "test-bid");
    assert_eq!(rep.bid_orders[0].price, 1);
    assert_eq!(rep.bid_orders[0].funds, 5);
    assert_eq!(rep.bid_orders[0].proceeds, 5_000_000_000);
}

#[test]
fn partial_match_ask() {
    let mut storage = MockStorage::new();
    let mut store = Store::new(&mut storage);
    init(&mut store);

    // Buy 5 hash, sell 10 hash, both at 1 stablecoin/hash
    place_bid(&mut store, 5, 1).unwrap();
    place_ask(&mut store, 10_000_000_000, 1).unwrap();

    let rep = book_of(&store);
    assert_eq!(rep.bid_orders.len(), 1);
    assert_eq!(rep.ask_orders.len(), 1);

    let res = execute(&mut store, later(3), mock_info("admin", vec![]), ExecuteMsg::Match {})
        .unwrap();

    assert_eq!(res.messages.len(), 2);
    check_sends(&res.messages, coin(5, "stablecoin"), coin(5_000_000_000, "nhash"));

    assert_eq!(res.attributes.len(), 1);
    assert_eq!(res.attributes[0].key, "orderbook.match");
    assert_eq!(res.attributes[0].value, "bid:test-bid,ask:test-ask");

    // The ask order was updated in the orderbook.
    let rep = book_of(&store);
    assert_eq!(rep.bid_orders.len(), 0);
    assert_eq!(rep.ask_orders.len(), 1);

    // There are still 5 stablecoin proceeds in the ask order
    assert_eq!(rep.ask_orders[0].id, "test-ask");
    assert_eq!(rep.ask_orders[0].price, 1);
    assert_eq!(rep.ask_orders[0].funds, 5_000_000_000);
    assert_eq!(rep.ask_orders[0].proceeds, 5);
}

#[test]
fn unauthorized_bid() {
    let mut storage = MockStorage::new();
    let mut store = Store::new(&mut storage);
    init(&mut store);

    // The admin cannot place bid orders
    let err = execute(
        &mut store,
        mock_env(),
        mock_info("admin", vec![coin(5, "stablecoin")]),
        ExecuteMsg::Bid { id: "test-bid".into(), price: 1 },
    )
    .unwrap_err();

    match err {
        ContractError::Unauthorized {} => {}
        _ => panic!("unexpected error type"),
    }
    assert_eq!(bids_of(&store).len(), 0);
}

#[test]
fn unauthorized_ask() {
    let mut storage = MockStorage::new();
    let mut store = Store::new(&mut storage);
    init(&mut store);

    // The admin cannot place ask orders
    let err = execute(
        &mut store,
        mock_env(),
        mock_info("admin", vec![coin(10_000_000_000, "nhash")]),
        ExecuteMsg::Ask { id: "test-ask".into(), price: 1 },
    )
    .unwrap_err();

    match err {
        ContractError::Unauthorized {} => {}
        _ => panic!("unexpected error type"),
    }
    assert_eq!(asks_of(&store).len(), 0);
}

#[test]
fn unauthorized_match() {
    let mut storage = MockStorage::new();
    let mut store = Store::new(&mut storage);
    init(&mut store);

    // Only the admin may execute a match
    let err = execute(&mut store, mock_env(), mock_info("asker", vec![]), ExecuteMsg::Match {})
        .unwrap_err();

    match err {
        ContractError::Unauthorized {} => {}
        _ => panic!("unexpected error type"),
    }
}

#[test]
fn invalid_bid_amount() {
    let mut storage = MockStorage::new();
    let mut store = Store::new(&mut storage);
    init(&mut store);

    // 1 stablecoin at 15 stablecoin/hash yields fractional nhash proceeds
    let err = place_bid(&mut store, 1, 15).unwrap_err();

    match err {
        ContractError::InvalidFunds { message } => {
            assert_eq!(message, "bid price must yield an integral for proceeds")
        }
        _ => panic!("unexpected error type"),
    }
}

#[test]
fn invalid_bid_amount_increment() {
    let mut storage = MockStorage::new();
    let mut store = Store::new(&mut storage);
    init(&mut store);

    // 3 stablecoin at 15 stablecoin/hash buys less than 1 hash
    let err = place_bid(&mut store, 3, 15).unwrap_err();

    match err {
        ContractError::InvalidFunds { message } => {
            assert_eq!(message, "funds must yield a bid amount in the required increments")
        }
        _ => panic!("unexpected error type"),
    }
}

#[test]
fn invalid_ask_amount() {
    let mut storage = MockStorage::new();
    let mut store = Store::new(&mut storage);
    init(&mut store);

    // Less than 1 hash
    let err = place_ask(&mut store, 123456789, 1).unwrap_err();

    match err {
        ContractError::InvalidFunds { message } => assert_eq!(
            message,
            "ask amount must be > 0 in the required increments: got 123456789"
        ),
        _ => panic!("unexpected error type"),
    }
}

#[test]
fn contract_valid_settlement() {
    let mut storage = MockStorage::new();
    let mut store = Store::new(&mut storage);
    init(&mut store);

    place_bid(&mut store, 10, 1).unwrap();
    place_ask(&mut store, 10_000_000_000, 1).unwrap();
    let res = execute(&mut store, later(1), mock_info("admin", vec![]), ExecuteMsg::Match {})
        .unwrap();

    // The asker is paid in quote first, then the bidder gets the base.
    assert_eq!(
        res.messages,
        vec![
            Transfer { to_address: "asker".into(), amount: coin(10, "stablecoin") },
            Transfer { to_address: "bidder".into(), amount: coin(10_000_000_000, "nhash") },
        ]
    );
}

#[test]
fn valid_settlement() {
    let mut storage = MockStorage::new();
    let mut store = Store::new(&mut storage);
    init(&mut store);

    // The bid offers twice the ask's price, so the ask holds more than it must give.
    place_bid(&mut store, 10, 2).unwrap();
    place_ask(&mut store, 10_000_000_000, 1).unwrap();
    let res = execute(&mut store, later(1), mock_info("admin", vec![]), ExecuteMsg::Match {})
        .unwrap();

    assert_eq!(
        res.messages,
        vec![
            Transfer { to_address: "asker".into(), amount: coin(10, "stablecoin") },
            Transfer { to_address: "bidder".into(), amount: coin(5_000_000_000, "nhash") },
            Transfer { to_address: "asker".into(), amount: coin(5_000_000_000, "nhash") },
        ]
    );
    let rep = book_of(&store);
    assert_eq!(rep.bid_orders.len(), 0);
    assert_eq!(rep.ask_orders.len(), 0);
}
