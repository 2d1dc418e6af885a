//! The records of the store: how a configuration and an order are written as
//! bytes, and how the bytes are read back.

use vstd::prelude::*;
use vstd::bytes::{
    lemma_auto_spec_u128_to_from_le_bytes, lemma_auto_spec_u64_to_from_le_bytes,
    spec_u128_from_le_bytes, spec_u128_to_le_bytes, spec_u64_from_le_bytes,
    spec_u64_to_le_bytes, u128_from_le_bytes, u128_to_le_bytes, u64_from_le_bytes,
    u64_to_le_bytes,
};
use crate::error::{ContractError, ErrorView};
use crate::ranking::Ranked;
use crate::state::{AskOrder, BidOrder, OrderView, State, StateView};
use vstd::slice::{slice_subrange, slice_to_vec};
use vstd::utf8::{decode_utf8, encode_utf8, valid_utf8};

verus! {

/// A text as it is stored inside a record: the length of its UTF-8 form in eight
/// bytes, least significant first, then that form.
pub open spec fn framed(text: Seq<char>) -> Seq<u8> {
    spec_u64_to_le_bytes(encode_utf8(text).len() as u64) + encode_utf8(text)
}

/// The framed text that starts at `at` in `bytes`, and where it ends; `None` where
/// the bytes from `at` on do not start with a framed text.
pub open spec fn text_at(bytes: Seq<u8>, at: int) -> Option<(Seq<char>, int)> {
    if at < 0 || bytes.len() - at < 8 {
        None
    } else {
        let n = spec_u64_from_le_bytes(bytes.subrange(at, at + 8)) as int;
        if bytes.len() - (at + 8) < n {
            None
        } else if !valid_utf8(bytes.subrange(at + 8, at + 8 + n)) {
            None
        } else {
            Some((decode_utf8(bytes.subrange(at + 8, at + 8 + n)), at + 8 + n))
        }
    }
}

/// `String::from_utf8`: the text that `bytes` are the UTF-8 form of, and `None`
/// where they are the form of none.
#[verifier::external_body]
pub(crate) fn text_of(bytes: Vec<u8>) -> (r: Option<String>)
    ensures
        valid_utf8(bytes@) ==> r is Some && r->Some_0@ == decode_utf8(bytes@),
        !valid_utf8(bytes@) ==> r is None,
{
    String::from_utf8(bytes).ok()
}

/// Append `text`, framed, to `out`.
pub fn write_text(out: &mut Vec<u8>, text: &String)
    ensures
        final(out)@ == old(out)@ + framed(text@),
        encode_utf8(text@).len() <= u64::MAX,
{
    let bytes = text.as_str().as_bytes();
    let mut len = u64_to_le_bytes(bytes.len() as u64);
    let mut body = slice_to_vec(bytes);
    out.append(&mut len);
    out.append(&mut body);
    assert(out@ =~= old(out)@ + framed(text@));
}

/// Read the framed text that starts at `at` in `bytes`.
pub fn read_text(bytes: &[u8], at: usize) -> (r: Option<(String, usize)>)
    ensures
        match text_at(bytes@, at as int) {
            Some((text, end)) => r is Some && r->Some_0.0@ == text && r->Some_0.1 == end,
            None => r is None,
        },
{
    if bytes.len() < at || bytes.len() - at < 8 {
        return None;
    }
    let n = u64_from_le_bytes(slice_subrange(bytes, at, at + 8));
    let room = bytes.len() - (at + 8);
    if (room as u64) < n {
        return None;
    }
    let end = at + 8 + (n as usize);
    match text_of(slice_to_vec(slice_subrange(bytes, at + 8, end))) {
        Some(text) => Some((text, end)),
        None => None,
    }
}

/// A framed text is read back as it was written, wherever it stands.
pub proof fn lemma_text_round_trip(before: Seq<u8>, text: Seq<char>, after: Seq<u8>)
    requires
        encode_utf8(text).len() <= u64::MAX,
    ensures
        text_at(before + framed(text) + after, before.len() as int) == Some(
            (text, (before.len() + framed(text).len()) as int),
        ),
        framed(text).len() == 8 + encode_utf8(text).len(),
{
    broadcast use vstd::utf8::encode_utf8_valid_utf8, vstd::utf8::encode_utf8_decode_utf8;

    lemma_auto_spec_u64_to_from_le_bytes();
    let all = before + framed(text) + after;
    let at = before.len() as int;
    let body = encode_utf8(text);
    assert(all.subrange(at, at + 8) =~= spec_u64_to_le_bytes(body.len() as u64));
    assert(all.subrange(at + 8, at + 8 + body.len()) =~= body);
}

/// What is read as a framed text stands there as that text, framed.
pub proof fn lemma_text_read_is_framed(bytes: Seq<u8>, at: int)
    requires
        text_at(bytes, at) is Some,
    ensures
        ({
            let (text, end) = text_at(bytes, at)->Some_0;
            &&& at + 8 <= end <= bytes.len()
            &&& bytes.subrange(at, end) == framed(text)
            &&& encode_utf8(text).len() <= u64::MAX
        }),
{
    broadcast use vstd::utf8::decode_utf8_encode_utf8;

    lemma_auto_spec_u64_to_from_le_bytes();
    let (text, end) = text_at(bytes, at)->Some_0;
    let head = bytes.subrange(at, at + 8);
    let n = spec_u64_from_le_bytes(head) as int;
    let body = bytes.subrange(at + 8, at + 8 + n);
    assert(encode_utf8(text) == body);
    assert(spec_u64_to_le_bytes(spec_u64_from_le_bytes(head)) == head);
    assert(bytes.subrange(at, end) =~= head + body);
}

/// The numbers of an order as they are stored: price, arrival time, funds and
/// proceeds, each least significant byte first.
pub open spec fn order_numbers(o: OrderView) -> Seq<u8> {
    spec_u128_to_le_bytes(o.price) + spec_u64_to_le_bytes(o.ts) + spec_u128_to_le_bytes(o.funds)
        + spec_u128_to_le_bytes(o.proceeds)
}

/// The value stored for an order: its numbers, its owner as a framed text, and the
/// UTF-8 form of its denomination. The order's id is the key that the value is
/// stored under.
pub open spec fn order_bytes(o: OrderView) -> Seq<u8> {
    order_numbers(o) + framed(o.owner) + encode_utf8(o.funds_denom)
}

/// The order that `value` stored under `key` stands for, if it stands for one.
pub open spec fn order_of(key: Seq<u8>, value: Seq<u8>) -> Option<OrderView> {
    if value.len() < 56 || !valid_utf8(key) {
        None
    } else {
        match text_at(value, 56) {
            None => None,
            Some((owner, end)) => {
                if !valid_utf8(value.subrange(end, value.len() as int)) {
                    None
                } else {
                    Some(
                        OrderView {
                            id: decode_utf8(key),
                            price: spec_u128_from_le_bytes(value.subrange(0, 16)),
                            ts: spec_u64_from_le_bytes(value.subrange(16, 24)),
                            owner,
                            funds: spec_u128_from_le_bytes(value.subrange(24, 40)),
                            funds_denom: decode_utf8(value.subrange(end, value.len() as int)),
                            proceeds: spec_u128_from_le_bytes(value.subrange(40, 56)),
                        },
                    )
                }
            },
        }
    }
}

/// An order that the store keeps: it has a namespace of its own side, which does
/// not end in the byte 255, and can be taken apart into the fields of a record and
/// put together from them.
pub trait Persisted: Ranked {
    /// The namespace that holds the orders of this side.
    spec fn side() -> Seq<u8>;

    /// The namespace that holds the orders of this side.
    fn namespace() -> (ns: Vec<u8>)
        ensures
            ns@ == Self::side(),
            ns@.len() < 0xFFFF,
            ns@.len() == 0 || ns@[ns@.len() - 1] != 0xFF,
    ;

    /// The id of the order.
    fn id_of(&self) -> (id: &String)
        ensures
            id@ == self@.id,
    ;

    /// Who placed the order.
    fn owner_of(&self) -> (owner: &String)
        ensures
            owner@ == self@.owner,
    ;

    /// The denomination of the order's funds.
    fn denom_of(&self) -> (denom: &String)
        ensures
            denom@ == self@.funds_denom,
    ;

    /// What the order still holds.
    fn funds_of(&self) -> (funds: u128)
        ensures
            funds == self@.funds,
    ;

    /// What the order is still owed.
    fn proceeds_of(&self) -> (proceeds: u128)
        ensures
            proceeds == self@.proceeds,
    ;

    /// The order of this side with these fields.
    fn assemble(
        id: String,
        price: u128,
        ts: u64,
        owner: String,
        funds: u128,
        funds_denom: String,
        proceeds: u128,
    ) -> (o: Self)
        ensures
            o@ == (OrderView {
                id: id@,
                price,
                ts,
                owner: owner@,
                funds,
                funds_denom: funds_denom@,
                proceeds,
            }),
    ;

    /// The refusal of a second order of this side under the id `id`.
    spec fn duplicate(id: Seq<char>) -> ErrorView;

    /// The refusal of a second order of this side under the id `id`.
    fn refuse_duplicate(id: String) -> (e: ContractError)
        ensures
            e@ == Self::duplicate(id@),
    ;
}

/// The namespace of the bids: the bytes of `bid`.
pub open spec fn bid_side() -> Seq<u8> {
    seq![98u8, 105u8, 100u8]
}

/// The namespace of the asks: the bytes of `ask`.
pub open spec fn ask_side() -> Seq<u8> {
    seq![97u8, 115u8, 107u8]
}

impl Persisted for BidOrder {
    open spec fn side() -> Seq<u8> {
        bid_side()
    }

    fn namespace() -> (ns: Vec<u8>) {
        let ns = vec![98u8, 105u8, 100u8];
        assert(ns@ =~= bid_side());
        ns
    }

    fn id_of(&self) -> (id: &String) {
        &self.id
    }

    fn owner_of(&self) -> (owner: &String) {
        &self.bidder
    }

    fn denom_of(&self) -> (denom: &String) {
        &self.funds_denom
    }

    fn funds_of(&self) -> (funds: u128) {
        self.funds
    }

    fn proceeds_of(&self) -> (proceeds: u128) {
        self.proceeds
    }

    fn assemble(
        id: String,
        price: u128,
        ts: u64,
        owner: String,
        funds: u128,
        funds_denom: String,
        proceeds: u128,
    ) -> (o: Self) {
        BidOrder { id, price, ts, bidder: owner, funds, funds_denom, proceeds }
    }

    open spec fn duplicate(id: Seq<char>) -> ErrorView {
        ErrorView::DuplicateBid { id }
    }

    fn refuse_duplicate(id: String) -> (e: ContractError) {
        ContractError::DuplicateBid { id }
    }
}

impl Persisted for AskOrder {
    open spec fn side() -> Seq<u8> {
        ask_side()
    }

    fn namespace() -> (ns: Vec<u8>) {
        let ns = vec![97u8, 115u8, 107u8];
        assert(ns@ =~= ask_side());
        ns
    }

    fn id_of(&self) -> (id: &String) {
        &self.id
    }

    fn owner_of(&self) -> (owner: &String) {
        &self.asker
    }

    fn denom_of(&self) -> (denom: &String) {
        &self.funds_denom
    }

    fn funds_of(&self) -> (funds: u128) {
        self.funds
    }

    fn proceeds_of(&self) -> (proceeds: u128) {
        self.proceeds
    }

    fn assemble(
        id: String,
        price: u128,
        ts: u64,
        owner: String,
        funds: u128,
        funds_denom: String,
        proceeds: u128,
    ) -> (o: Self) {
        AskOrder { id, price, ts, asker: owner, funds, funds_denom, proceeds }
    }

    open spec fn duplicate(id: Seq<char>) -> ErrorView {
        ErrorView::DuplicateAsk { id }
    }

    fn refuse_duplicate(id: String) -> (e: ContractError) {
        ContractError::DuplicateAsk { id }
    }
}

/// The value to store for `order`.
pub fn encode_order<T: Persisted>(order: &T) -> (bytes: Vec<u8>)
    ensures
        bytes@ == order_bytes(order@),
        bytes@.len() >= 64,
        encode_utf8(order@.owner).len() <= u64::MAX,
{
    proof {
        lemma_auto_spec_u64_to_from_le_bytes();
        lemma_auto_spec_u128_to_from_le_bytes();
    }
    let mut out = u128_to_le_bytes(order.price_of());
    let mut ts = u64_to_le_bytes(order.ts_of());
    out.append(&mut ts);
    let mut funds = u128_to_le_bytes(order.funds_of());
    out.append(&mut funds);
    let mut proceeds = u128_to_le_bytes(order.proceeds_of());
    out.append(&mut proceeds);
    assert(out@ =~= order_numbers(order@));
    write_text(&mut out, order.owner_of());
    let mut denom = slice_to_vec(order.denom_of().as_str().as_bytes());
    out.append(&mut denom);
    out
}

/// The order that `value` stored under `key` stands for.
pub fn decode_order<T: Persisted>(key: &[u8], value: &[u8]) -> (r: Option<T>)
    ensures
        match order_of(key@, value@) {
            Some(o) => r is Some && r->Some_0@ == o,
            None => r is None,
        },
{
    if value.len() < 56 {
        return None;
    }
    let id = match text_of(slice_to_vec(key)) {
        Some(id) => id,
        None => {
            return None;
        },
    };
    let (owner, end) = match read_text(value, 56) {
        Some(found) => found,
        None => {
            return None;
        },
    };
    proof {
        lemma_text_read_is_framed(value@, 56);
    }
    let funds_denom = match text_of(slice_to_vec(slice_subrange(value, end, value.len()))) {
        Some(denom) => denom,
        None => {
            return None;
        },
    };
    let price = u128_from_le_bytes(slice_subrange(value, 0, 16));
    let ts = u64_from_le_bytes(slice_subrange(value, 16, 24));
    let funds = u128_from_le_bytes(slice_subrange(value, 24, 40));
    let proceeds = u128_from_le_bytes(slice_subrange(value, 40, 56));
    Some(T::assemble(id, price, ts, owner, funds, funds_denom, proceeds))
}

/// An order is read back as it was written.
pub proof fn lemma_order_round_trip(o: OrderView)
    requires
        encode_utf8(o.owner).len() <= u64::MAX,
    ensures
        order_of(encode_utf8(o.id), order_bytes(o)) == Some(o),
        order_bytes(o).len() >= 64,
{
    broadcast use vstd::utf8::encode_utf8_valid_utf8, vstd::utf8::encode_utf8_decode_utf8;

    lemma_auto_spec_u64_to_from_le_bytes();
    lemma_auto_spec_u128_to_from_le_bytes();
    let numbers = order_numbers(o);
    let denom = encode_utf8(o.funds_denom);
    let value = order_bytes(o);
    lemma_text_round_trip(numbers, o.owner, denom);
    let end = 56 + framed(o.owner).len();
    assert(value.subrange(end as int, value.len() as int) =~= denom);
    assert(value.subrange(0, 16) =~= spec_u128_to_le_bytes(o.price));
    assert(value.subrange(16, 24) =~= spec_u64_to_le_bytes(o.ts));
    assert(value.subrange(24, 40) =~= spec_u128_to_le_bytes(o.funds));
    assert(value.subrange(40, 56) =~= spec_u128_to_le_bytes(o.proceeds));
}

/// What is read as an order was written as that order: the key is the UTF-8 form of
/// its id and the value is the order's record.
pub proof fn lemma_order_read_is_written(key: Seq<u8>, value: Seq<u8>)
    requires
        order_of(key, value) is Some,
    ensures
        key == encode_utf8(order_of(key, value)->Some_0.id),
        value == order_bytes(order_of(key, value)->Some_0),
        encode_utf8(order_of(key, value)->Some_0.owner).len() <= u64::MAX,
{
    broadcast use vstd::utf8::decode_utf8_encode_utf8;

    lemma_auto_spec_u64_to_from_le_bytes();
    lemma_auto_spec_u128_to_from_le_bytes();
    lemma_text_read_is_framed(value, 56);
    let o = order_of(key, value)->Some_0;
    let (owner, end) = text_at(value, 56)->Some_0;
    let tail = value.subrange(end, value.len() as int);
    assert(order_numbers(o) =~= value.subrange(0, 56)) by {
        assert(spec_u128_to_le_bytes(o.price) == value.subrange(0, 16));
        assert(spec_u64_to_le_bytes(o.ts) == value.subrange(16, 24));
        assert(spec_u128_to_le_bytes(o.funds) == value.subrange(24, 40));
        assert(spec_u128_to_le_bytes(o.proceeds) == value.subrange(40, 56));
    }
    assert(value =~= value.subrange(0, 56) + value.subrange(56, end) + tail);
}

/// Two orders with one key and one record are one order.
pub proof fn lemma_order_bytes_injective(a: OrderView, b: OrderView)
    requires
        encode_utf8(a.owner).len() <= u64::MAX,
        encode_utf8(b.owner).len() <= u64::MAX,
        encode_utf8(a.id) == encode_utf8(b.id),
        order_bytes(a) == order_bytes(b),
    ensures
        a == b,
{
    lemma_order_round_trip(a);
    lemma_order_round_trip(b);
}

/// The value stored for a configuration: the increment, least significant byte
/// first, the admin and the base denomination as framed texts, and the UTF-8 form of
/// the quote denomination.
pub open spec fn state_bytes(s: StateView) -> Seq<u8> {
    spec_u128_to_le_bytes(s.ask_increment) + framed(s.contract_admin) + framed(s.ask_denom)
        + encode_utf8(s.bid_denom)
}

/// The configuration that `value` stands for, if it stands for one. A record with
/// an increment of zero stands for none.
pub open spec fn state_of(value: Seq<u8>) -> Option<StateView> {
    if value.len() < 16 {
        None
    } else {
        match text_at(value, 16) {
            None => None,
            Some((contract_admin, mid)) => match text_at(value, mid) {
                None => None,
                Some((ask_denom, end)) => {
                    if !valid_utf8(value.subrange(end, value.len() as int))
                        || spec_u128_from_le_bytes(value.subrange(0, 16)) == 0 {
                        None
                    } else {
                        Some(
                            StateView {
                                ask_denom,
                                ask_increment: spec_u128_from_le_bytes(value.subrange(0, 16)),
                                bid_denom: decode_utf8(value.subrange(end, value.len() as int)),
                                contract_admin,
                            },
                        )
                    }
                },
            },
        }
    }
}

/// The value to store for `state`.
pub fn encode_state(state: &State) -> (bytes: Vec<u8>)
    ensures
        bytes@ == state_bytes(state@),
        bytes@.len() >= 32,
        encode_utf8(state@.contract_admin).len() <= u64::MAX,
        encode_utf8(state@.ask_denom).len() <= u64::MAX,
{
    proof {
        lemma_auto_spec_u64_to_from_le_bytes();
        lemma_auto_spec_u128_to_from_le_bytes();
    }
    let mut out = u128_to_le_bytes(state.ask_increment);
    write_text(&mut out, &state.contract_admin);
    write_text(&mut out, &state.ask_denom);
    let mut denom = slice_to_vec(state.bid_denom.as_str().as_bytes());
    out.append(&mut denom);
    out
}

/// The configuration that `value` stands for.
pub fn decode_state(value: &[u8]) -> (r: Option<State>)
    ensures
        match state_of(value@) {
            Some(s) => r is Some && r->Some_0@ == s,
            None => r is None,
        },
{
    if value.len() < 16 {
        return None;
    }
    let (contract_admin, mid) = match read_text(value, 16) {
        Some(found) => found,
        None => {
            return None;
        },
    };
    proof {
        lemma_text_read_is_framed(value@, 16);
    }
    let (ask_denom, end) = match read_text(value, mid) {
        Some(found) => found,
        None => {
            return None;
        },
    };
    proof {
        lemma_text_read_is_framed(value@, mid as int);
    }
    let bid_denom = match text_of(slice_to_vec(slice_subrange(value, end, value.len()))) {
        Some(denom) => denom,
        None => {
            return None;
        },
    };
    let ask_increment = u128_from_le_bytes(slice_subrange(value, 0, 16));
    if ask_increment == 0 {
        return None;
    }
    Some(State { ask_denom, ask_increment, bid_denom, contract_admin })
}

/// A configuration is read back as it was written.
pub proof fn lemma_state_round_trip(s: StateView)
    requires
        s.ask_increment > 0,
        encode_utf8(s.contract_admin).len() <= u64::MAX,
        encode_utf8(s.ask_denom).len() <= u64::MAX,
    ensures
        state_of(state_bytes(s)) == Some(s),
{
    broadcast use vstd::utf8::encode_utf8_valid_utf8, vstd::utf8::encode_utf8_decode_utf8;

    lemma_auto_spec_u64_to_from_le_bytes();
    lemma_auto_spec_u128_to_from_le_bytes();
    let head = spec_u128_to_le_bytes(s.ask_increment);
    let admin = framed(s.contract_admin);
    let base = framed(s.ask_denom);
    let quote = encode_utf8(s.bid_denom);
    let value = state_bytes(s);
    lemma_text_round_trip(head, s.contract_admin, base + quote);
    assert(value =~= head + admin + (base + quote));
    lemma_text_round_trip(head + admin, s.ask_denom, quote);
    let end = 16 + admin.len() + base.len();
    assert(value.subrange(end as int, value.len() as int) =~= quote);
    assert(value.subrange(0, 16) =~= head);
}

} // verus!
