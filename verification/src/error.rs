//! The refusals of the book.

use vstd::prelude::*;

verus! {

/// A failure of the store underneath the book.
#[derive(Debug, PartialEq)]
pub enum StoreError {
    /// Nothing is stored where a record has to be.
    NotFound {  },
    /// The bytes stored for a record are not a record.
    ParseErr {  },
}

/// Why an operation on the book was refused.
#[derive(Debug, PartialEq)]
pub enum ContractError {
    Std(StoreError),
    Unauthorized {  },
    InvalidPrice { message: String },
    DuplicateBid { id: String },
    DuplicateAsk { id: String },
    InvalidFunds { message: String },
    AskClosed {  },
    BidClosed {  },
    Overflow {  },
    Underflow {  },
}

/// A refusal as plain values.
pub enum ErrorView {
    Std(StoreError),
    Unauthorized,
    InvalidPrice { message: Seq<char> },
    DuplicateBid { id: Seq<char> },
    DuplicateAsk { id: Seq<char> },
    InvalidFunds { message: Seq<char> },
    AskClosed,
    BidClosed,
    Overflow,
    Underflow,
}

impl View for ContractError {
    type V = ErrorView;

    open spec fn view(&self) -> ErrorView {
        match self {
            ContractError::Std(e) => ErrorView::Std(*e),
            ContractError::Unauthorized {  } => ErrorView::Unauthorized,
            ContractError::InvalidPrice { message } => ErrorView::InvalidPrice { message: message@ },
            ContractError::DuplicateBid { id } => ErrorView::DuplicateBid { id: id@ },
            ContractError::DuplicateAsk { id } => ErrorView::DuplicateAsk { id: id@ },
            ContractError::InvalidFunds { message } => ErrorView::InvalidFunds { message: message@ },
            ContractError::AskClosed {  } => ErrorView::AskClosed,
            ContractError::BidClosed {  } => ErrorView::BidClosed,
            ContractError::Overflow {  } => ErrorView::Overflow,
            ContractError::Underflow {  } => ErrorView::Underflow,
        }
    }
}

/// The refusal in `r` as plain values, where `r` is one.
pub open spec fn failure<T>(r: Result<T, ContractError>) -> Option<ErrorView> {
    match r {
        Ok(_) => None,
        Err(e) => Some(e@),
    }
}

} // verus!
