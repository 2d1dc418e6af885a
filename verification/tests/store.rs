use cosmwasm_std::testing::MockStorage;
use cosmwasm_std::Storage;
use cosmwasm_storage::{PrefixedStorage, ReadonlyPrefixedStorage};
use orderbook::book::{
    ask_orders, ask_orders_read, bid_orders, bid_orders_read, config, config_read, discard, get,
    get_orders, insert, load, save, scan, update_order,
};
use orderbook::codec::{
    decode_order, decode_state, encode_order, encode_state, read_text, write_text,
};
use orderbook::contract::{
    apply_updates, get_ask_orders, get_bid_orders, has_ask_before, update_ask_order,
    update_bid_order,
};
use orderbook::error::{ContractError, StoreError};
use orderbook::state::{AskOrder, BidOrder, State};
use orderbook::store::Store;
use orderbook::sweep::Update;

const INCREMENT: u128 = 1_000_000_000;

fn bid(id: &str, price: u128, ts: u64, funds: u128, proceeds: u128) -> BidOrder {
    BidOrder {
        id: id.into(),
        price,
        ts,
        bidder: "bidder".into(),
        funds,
        funds_denom: "stablecoin".into(),
        proceeds,
    }
}

fn ask(id: &str, price: u128, ts: u64, funds: u128, proceeds: u128) -> AskOrder {
    AskOrder {
        id: id.into(),
        price,
        ts,
        asker: "asker".into(),
        funds,
        funds_denom: "nhash".into(),
        proceeds,
    }
}

fn state() -> State {
    State {
        ask_denom: "nhash".into(),
        ask_increment: INCREMENT,
        bid_denom: "stablecoin".into(),
        contract_admin: "admin".into(),
    }
}

#[test]
fn text_is_read_back_as_written() {
    let mut out = vec![7u8];
    write_text(&mut out, &"héllo ∑".to_string());
    assert_eq!(out[1..9], 10u64.to_le_bytes());
    assert_eq!(out.len(), 1 + 8 + 10);
    assert_eq!(read_text(&out, 1), Some(("héllo ∑".to_string(), out.len())));
    // Too short for a length, a length that overruns, bytes that are no text.
    assert_eq!(read_text(&out, 12), None);
    assert_eq!(read_text(&out, 0), None);
    assert_eq!(read_text(&out, out.len() + 1), None);
    let mut broken = 2u64.to_le_bytes().to_vec();
    broken.extend_from_slice(&[0xC3, 0x28]);
    assert_eq!(read_text(&broken, 0), None);
    let empty = 0u64.to_le_bytes().to_vec();
    assert_eq!(read_text(&empty, 0), Some((String::new(), 8)));
}

#[test]
fn order_record_has_the_documented_layout() {
    let order = bid("b1", 3, 77, 30, 10 * INCREMENT);
    let bytes = encode_order(&order);
    let mut expected = Vec::new();
    expected.extend_from_slice(&3u128.to_le_bytes());
    expected.extend_from_slice(&77u64.to_le_bytes());
    expected.extend_from_slice(&30u128.to_le_bytes());
    expected.extend_from_slice(&(10 * INCREMENT).to_le_bytes());
    expected.extend_from_slice(&6u64.to_le_bytes());
    expected.extend_from_slice(b"bidder");
    expected.extend_from_slice(b"stablecoin");
    assert_eq!(bytes, expected);
}

#[test]
fn order_is_read_back_as_written() {
    let order = ask("ask-∂", u128::MAX, u64::MAX, 5 * INCREMENT, 0);
    let bytes = encode_order(&order);
    assert_eq!(decode_order::<AskOrder>("ask-∂".as_bytes(), &bytes), Some(order.clone()));
    // The same record under another key is the order of that id.
    let other = decode_order::<AskOrder>(b"x", &bytes).unwrap();
    assert_eq!(other.id, "x");
    assert_eq!(other.funds, order.funds);
    // As a bid the record has the same fields.
    let as_bid = decode_order::<BidOrder>(b"x", &bytes).unwrap();
    assert_eq!(as_bid.bidder, "asker");
    assert_eq!(as_bid.price, u128::MAX);
}

#[test]
fn broken_order_records_are_refused() {
    let bytes = encode_order(&bid("b1", 1, 1, 1, INCREMENT));
    assert_eq!(decode_order::<BidOrder>(b"b1", &bytes[..55]), None);
    assert_eq!(decode_order::<BidOrder>(b"b1", &bytes[..60]), None);
    assert_eq!(decode_order::<BidOrder>(b"b1", &bytes[..66]), None);
    assert_eq!(decode_order::<BidOrder>(&[0xFF], &bytes), None);
    assert_eq!(decode_order::<BidOrder>(b"b1", &[]), None);
    let mut bad_denom = bytes.clone();
    bad_denom.push(0xFF);
    assert_eq!(decode_order::<BidOrder>(b"b1", &bad_denom), None);
}

#[test]
fn state_is_read_back_as_written() {
    let bytes = encode_state(&state());
    assert_eq!(decode_state(&bytes), Some(state()));
    assert_eq!(decode_state(&bytes[..15]), None);
    assert_eq!(decode_state(&bytes[..20]), None);
    let zero = State { ask_increment: 0, ..state() };
    assert_eq!(decode_state(&encode_state(&zero)), None);
}

#[test]
fn config_is_kept_where_a_singleton_is() {
    let mut storage = MockStorage::new();
    {
        let mut store = Store::new(&mut storage);
        assert_eq!(
            config_read(&store),
            Err(ContractError::Std(StoreError::NotFound {}))
        );
        config(&mut store, &state());
        assert_eq!(config_read(&store), Ok(state()));
    }
    assert_eq!(storage.get(b"\x00\x06config"), Some(encode_state(&state())));
}

#[test]
fn broken_config_is_a_parse_error() {
    let mut storage = MockStorage::new();
    storage.set(b"\x00\x06config", b"junk");
    let store = Store::new(&mut storage);
    assert_eq!(config_read(&store), Err(ContractError::Std(StoreError::ParseErr {})));
}

#[test]
fn orders_are_kept_under_their_ids() {
    let mut storage = MockStorage::new();
    {
        let mut store = Store::new(&mut storage);
        assert_eq!(load::<BidOrder>(&store, &"b1".to_string()), Ok(None));
        save(&mut store, &bid("b1", 1, 5, 10, 10 * INCREMENT));
        save(&mut store, &ask("b1", 2, 6, INCREMENT, 2));
        assert_eq!(
            load::<BidOrder>(&store, &"b1".to_string()),
            Ok(Some(bid("b1", 1, 5, 10, 10 * INCREMENT)))
        );
        assert_eq!(
            load::<AskOrder>(&store, &"b1".to_string()),
            Ok(Some(ask("b1", 2, 6, INCREMENT, 2)))
        );
        assert_eq!(load::<AskOrder>(&store, &"b2".to_string()), Ok(None));
        // A second save replaces the first.
        save(&mut store, &bid("b1", 1, 5, 4, 4 * INCREMENT));
        assert_eq!(
            load::<BidOrder>(&store, &"b1".to_string()),
            Ok(Some(bid("b1", 1, 5, 4, 4 * INCREMENT)))
        );
    }
    let bids = ReadonlyPrefixedStorage::new(&storage, b"bid");
    assert_eq!(bids.get(b"b1"), Some(encode_order(&bid("b1", 1, 5, 4, 4 * INCREMENT))));
    assert_eq!(
        storage.get(b"\x00\x03askb1"),
        Some(encode_order(&ask("b1", 2, 6, INCREMENT, 2)))
    );
}

#[test]
fn discard_takes_one_order_out() {
    let mut storage = MockStorage::new();
    let mut store = Store::new(&mut storage);
    save(&mut store, &bid("b1", 1, 5, 10, 10 * INCREMENT));
    save(&mut store, &bid("b2", 1, 5, 10, 10 * INCREMENT));
    save(&mut store, &ask("b1", 1, 5, INCREMENT, 1));
    discard::<BidOrder>(&mut store, &"b1".to_string());
    // Taking out what is not there changes nothing.
    discard::<BidOrder>(&mut store, &"b7".to_string());
    assert_eq!(load::<BidOrder>(&store, &"b1".to_string()), Ok(None));
    assert_eq!(scan::<BidOrder>(&store).unwrap(), vec![bid("b2", 1, 5, 10, 10 * INCREMENT)]);
    assert_eq!(scan::<AskOrder>(&store).unwrap(), vec![ask("b1", 1, 5, INCREMENT, 1)]);
}

#[test]
fn scan_lists_by_ascending_key() {
    let mut storage = MockStorage::new();
    let mut store = Store::new(&mut storage);
    for id in ["b", "ab", "c", "a", ""] {
        bid_orders(&mut store, &bid(id, 1, 5, 10, 10 * INCREMENT));
    }
    ask_orders(&mut store, &ask("zz", 1, 5, INCREMENT, 1));
    config(&mut store, &state());
    let ids: Vec<String> = bid_orders_read(&store).unwrap().into_iter().map(|o| o.id).collect();
    assert_eq!(ids, vec!["", "a", "ab", "b", "c"]);
    let ids: Vec<String> = ask_orders_read(&store).unwrap().into_iter().map(|o| o.id).collect();
    assert_eq!(ids, vec!["zz"]);
}

#[test]
fn book_side_is_in_price_time_order() {
    let mut storage = MockStorage::new();
    let mut store = Store::new(&mut storage);
    save(&mut store, &bid("a", 1, 5, 10, 10 * INCREMENT));
    save(&mut store, &bid("b", 2, 9, 10, 5 * INCREMENT));
    save(&mut store, &bid("c", 2, 3, 10, 5 * INCREMENT));
    save(&mut store, &bid("e", 2, 3, 10, 5 * INCREMENT));
    save(&mut store, &bid("d", 2, 3, 10, 5 * INCREMENT));
    let ids: Vec<String> = get_bid_orders(&store).unwrap().into_iter().map(|o| o.id).collect();
    assert_eq!(ids, vec!["c", "d", "e", "b", "a"]);
    assert_eq!(get_ask_orders(&store), Ok(vec![]));
    assert_eq!(get_orders::<BidOrder>(&store).unwrap().len(), 5);
}

#[test]
fn broken_order_is_a_parse_error() {
    let mut storage = MockStorage::new();
    PrefixedStorage::new(&mut storage, b"bid").set(b"b1", b"junk");
    let store = Store::new(&mut storage);
    let broken = ContractError::Std(StoreError::ParseErr {});
    assert_eq!(load::<BidOrder>(&store, &"b1".to_string()), Err(broken));
    assert_eq!(scan::<BidOrder>(&store), Err(ContractError::Std(StoreError::ParseErr {})));
    assert_eq!(get_bid_orders(&store), Err(ContractError::Std(StoreError::ParseErr {})));
    assert_eq!(get_ask_orders(&store), Ok(vec![]));
}

#[test]
fn update_removes_closed_orders_and_keeps_open_ones() {
    let mut storage = MockStorage::new();
    let mut store = Store::new(&mut storage);
    save(&mut store, &bid("b1", 1, 5, 10, 10 * INCREMENT));
    save(&mut store, &ask("a1", 1, 5, 10 * INCREMENT, 10));
    update_bid_order(&mut store, bid("b1", 1, 5, 4, 4 * INCREMENT));
    update_ask_order(&mut store, ask("a1", 1, 5, 0, 0));
    assert_eq!(get_bid_orders(&store), Ok(vec![bid("b1", 1, 5, 4, 4 * INCREMENT)]));
    assert_eq!(get_ask_orders(&store), Ok(vec![]));
    update_order(&mut store, bid("b1", 1, 5, 0, 0));
    assert_eq!(get_bid_orders(&store), Ok(vec![]));
    // An order with funds left and nothing owed is still open.
    update_order(&mut store, ask("a2", 1, 5, INCREMENT, 0));
    assert_eq!(get_ask_orders(&store), Ok(vec![ask("a2", 1, 5, INCREMENT, 0)]));
}

#[test]
fn updates_are_applied_in_order() {
    let mut storage = MockStorage::new();
    let mut store = Store::new(&mut storage);
    save(&mut store, &bid("b1", 1, 5, 10, 10 * INCREMENT));
    let updates = vec![
        Update::Bid(bid("b1", 1, 5, 0, 0)),
        Update::Bid(bid("b1", 1, 5, 3, 3 * INCREMENT)),
        Update::Ask(ask("a1", 1, 5, INCREMENT, 1)),
        Update::Ask(ask("a1", 1, 5, 0, 0)),
    ];
    apply_updates(&mut store, &updates);
    assert_eq!(get_bid_orders(&store), Ok(vec![bid("b1", 1, 5, 3, 3 * INCREMENT)]));
    assert_eq!(get_ask_orders(&store), Ok(vec![]));
}

#[test]
fn early_asks_are_found() {
    let asks = vec![ask("a1", 1, 10, INCREMENT, 1), ask("a2", 1, 9, INCREMENT, 1)];
    assert!(has_ask_before(&asks, 10));
    assert!(!has_ask_before(&asks, 9));
    assert!(!has_ask_before(&vec![], 9));
}

#[test]
fn insert_refuses_a_second_order_under_one_id() {
    let mut storage = MockStorage::new();
    let mut store = Store::new(&mut storage);
    assert_eq!(insert(&mut store, &bid("x", 1, 5, 10, 10 * INCREMENT)), Ok(()));
    assert_eq!(
        insert(&mut store, &bid("x", 2, 6, 4, 2 * INCREMENT)),
        Err(ContractError::DuplicateBid { id: "x".into() })
    );
    // The other side has ids of its own.
    assert_eq!(insert(&mut store, &ask("x", 1, 5, INCREMENT, 1)), Ok(()));
    assert_eq!(
        insert(&mut store, &ask("x", 1, 5, INCREMENT, 1)),
        Err(ContractError::DuplicateAsk { id: "x".into() })
    );
    assert_eq!(get::<BidOrder>(&store, &"x".to_string()), Ok(bid("x", 1, 5, 10, 10 * INCREMENT)));
    assert_eq!(get::<AskOrder>(&store, &"x".to_string()), Ok(ask("x", 1, 5, INCREMENT, 1)));
    assert_eq!(
        get::<AskOrder>(&store, &"y".to_string()),
        Err(ContractError::Std(StoreError::NotFound {}))
    );
}
