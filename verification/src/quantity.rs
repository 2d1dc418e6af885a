//! The quantity algebra: checked arithmetic on amounts, and the proceeds that
//! an order is owed at its price.

use vstd::prelude::*;
use crate::error::{failure, ContractError, ErrorView};

verus! {

/// `a + b`, or `Overflow` when the sum does not fit.
pub fn checked_add(a: u128, b: u128) -> (r: Result<u128, ContractError>)
    ensures
        a + b <= u128::MAX ==> r == Ok::<u128, ContractError>((a + b) as u128),
        a + b > u128::MAX ==> failure(r) == Some(ErrorView::Overflow),
{
    match a.checked_add(b) {
        Some(v) => Ok(v),
        None => Err(ContractError::Overflow {  }),
    }
}

/// `a - b`, or `Underflow` when `b` exceeds `a`.
pub fn checked_sub(a: u128, b: u128) -> (r: Result<u128, ContractError>)
    ensures
        b <= a ==> r == Ok::<u128, ContractError>((a - b) as u128),
        b > a ==> failure(r) == Some(ErrorView::Underflow),
{
    match a.checked_sub(b) {
        Some(v) => Ok(v),
        None => Err(ContractError::Underflow {  }),
    }
}

/// `a * b`, or `Overflow` when the product does not fit.
pub fn checked_mul(a: u128, b: u128) -> (r: Result<u128, ContractError>)
    ensures
        a * b <= u128::MAX ==> r == Ok::<u128, ContractError>((a * b) as u128),
        a * b > u128::MAX ==> failure(r) == Some(ErrorView::Overflow),
{
    match a.checked_mul(b) {
        Some(v) => Ok(v),
        None => Err(ContractError::Overflow {  }),
    }
}

/// `a / b`, or `Overflow` when `b` is zero and the quotient is no number.
pub fn checked_div(a: u128, b: u128) -> (r: Result<u128, ContractError>)
    ensures
        b > 0 ==> r == Ok::<u128, ContractError>((a / b) as u128),
        b == 0 ==> failure(r) == Some(ErrorView::Overflow),
{
    if b == 0 {
        Err(ContractError::Overflow {  })
    } else {
        Ok(a / b)
    }
}

/// What an ask of `funds` base sub-units at `price` is owed in quote:
/// `(funds / increment) * price`.
pub open spec fn ask_proceeds(funds: u128, price: u128, increment: u128) -> int {
    (funds as int / increment as int) * price as int
}

/// The proceeds of an ask, or `Overflow` where they do not fit.
pub open spec fn checked_ask_proceeds(funds: u128, price: u128, increment: u128) -> Result<
    u128,
    ErrorView,
> {
    if ask_proceeds(funds, price, increment) > u128::MAX {
        Err(ErrorView::Overflow)
    } else {
        Ok(ask_proceeds(funds, price, increment) as u128)
    }
}

/// The quote amount of a bid, scaled by the increment.
pub open spec fn bid_numerator(funds: u128, increment: u128) -> int {
    funds as int * increment as int
}

/// What a bid of `funds` quote sub-units at `price` is owed in base:
/// `(funds * increment) / price`.
pub open spec fn bid_proceeds(funds: u128, price: u128, increment: u128) -> int {
    bid_numerator(funds, increment) / price as int
}

/// The reason given when the price does not divide the scaled funds of a bid.
pub open spec fn not_integral_text() -> Seq<char> {
    "bid price must yield an integral for proceeds"@
}

/// The reason given when a bid would buy a fraction of the base increment.
pub open spec fn not_in_increments_text() -> Seq<char> {
    "funds must yield a bid amount in the required increments"@
}

/// The proceeds of a bid: `Overflow` where the scaled funds do not fit, a refusal of
/// the funds where the price does not divide them or where the proceeds are not a
/// whole number of increments.
pub open spec fn checked_bid_proceeds(funds: u128, price: u128, increment: u128) -> Result<
    u128,
    ErrorView,
> {
    if bid_numerator(funds, increment) > u128::MAX {
        Err(ErrorView::Overflow)
    } else if bid_numerator(funds, increment) % price as int != 0 {
        Err(ErrorView::InvalidFunds { message: not_integral_text() })
    } else if bid_proceeds(funds, price, increment) % increment as int != 0 {
        Err(ErrorView::InvalidFunds { message: not_in_increments_text() })
    } else {
        Ok(bid_proceeds(funds, price, increment) as u128)
    }
}

/// Proceeds of an ask whose funds are a whole number of increments.
pub fn proceeds_of_ask(funds: u128, price: u128, increment: u128) -> (r: Result<u128, ContractError>)
    requires
        increment > 0,
        funds % increment == 0,
    ensures
        match checked_ask_proceeds(funds, price, increment) {
            Ok(proceeds) => r == Ok::<u128, ContractError>(proceeds),
            Err(e) => failure(r) == Some(e),
        },
{
    checked_mul(funds / increment, price)
}

/// Proceeds of a bid, refused unless they are a whole number of increments.
pub fn proceeds_of_bid(funds: u128, price: u128, increment: u128) -> (r: Result<u128, ContractError>)
    requires
        increment > 0,
        price > 0,
    ensures
        match checked_bid_proceeds(funds, price, increment) {
            Ok(proceeds) => r == Ok::<u128, ContractError>(proceeds),
            Err(e) => failure(r) == Some(e),
        },
{
    let num: u128 = match checked_mul(funds, increment) {
        Ok(v) => v,
        Err(e) => {
            return Err(e);
        },
    };
    if num % price != 0 {
        return Err(
            ContractError::InvalidFunds {
                message: "bid price must yield an integral for proceeds".to_owned(),
            },
        );
    }
    let proceeds: u128 = num / price;
    if proceeds % increment != 0 {
        return Err(
            ContractError::InvalidFunds {
                message: "funds must yield a bid amount in the required increments".to_owned(),
            },
        );
    }
    Ok(proceeds)
}

/// A bid that passes the integrality rule is worth exactly its proceeds at its price.
pub proof fn lemma_bid_proceeds_exact(funds: u128, price: u128, increment: u128)
    requires
        price > 0,
        checked_bid_proceeds(funds, price, increment) is Ok,
    ensures
        funds * increment == checked_bid_proceeds(funds, price, increment)->Ok_0 * price,
        checked_bid_proceeds(funds, price, increment)->Ok_0 % increment == 0,
{
    let n = bid_numerator(funds, increment);
    let p = price as int;
    assert(n == p * (n / p) + n % p) by {
        vstd::arithmetic::div_mod::lemma_fundamental_div_mod(n, p);
    }
    assert(p * (n / p) == (n / p) * p) by (nonlinear_arith);
    assert(0 <= n / p <= n) by (nonlinear_arith)
        requires
            n >= 0,
            p > 0,
    ;
}

/// An ask of whole increments is worth exactly its proceeds per increment.
pub proof fn lemma_ask_proceeds_exact(funds: u128, price: u128, increment: u128)
    requires
        increment > 0,
        funds % increment == 0,
    ensures
        ask_proceeds(funds, price, increment) * increment == funds * price,
{
    let f = funds as int;
    let i = increment as int;
    let p = price as int;
    assert(f == i * (f / i) + f % i) by {
        vstd::arithmetic::div_mod::lemma_fundamental_div_mod(f, i);
    }
    assert(((f / i) * p) * i == (i * (f / i)) * p) by (nonlinear_arith);
}

} // verus!
