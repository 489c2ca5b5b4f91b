//! What can go wrong in the ledger engine.

use crate::money::{money_text, Money};
use vstd::prelude::*;

verus! {

/// The failures of the engine. None is retried: each aborts the operation that
/// met it.
#[derive(Debug, PartialEq, Eq)]
pub enum ErrorKind {
    /// The path names no account, or a name breaks the rule on `:`.
    InvalidAccountName(String),
    /// An account already stands at the path.
    AlreadyExists(String),
    /// A deposit of the amount was aimed at the derived account at the path.
    InvalidDeposit(String, Money),
    /// A tree node stood where a leaf account was needed.
    UnwrapNode,
    /// The text is no expression.
    Parse(String),
}

/// An error with its texts and amounts as plain values.
pub enum ErrorView {
    InvalidAccountName(Seq<char>),
    AlreadyExists(Seq<char>),
    InvalidDeposit(Seq<char>, int),
    UnwrapNode,
    Parse(Seq<char>),
}

impl View for ErrorKind {
    type V = ErrorView;

    open spec fn view(&self) -> ErrorView {
        match self {
            ErrorKind::InvalidAccountName(path) => ErrorView::InvalidAccountName(path@),
            ErrorKind::AlreadyExists(path) => ErrorView::AlreadyExists(path@),
            ErrorKind::InvalidDeposit(path, amount) => ErrorView::InvalidDeposit(path@, amount@),
            ErrorKind::UnwrapNode => ErrorView::UnwrapNode,
            ErrorKind::Parse(text) => ErrorView::Parse(text@),
        }
    }
}

/// The message of an error.
pub open spec fn message_text(error: ErrorView) -> Seq<char> {
    match error {
        ErrorView::InvalidAccountName(path) => "invalid account name: '"@ + path + "'"@,
        ErrorView::AlreadyExists(path) => "an account already exists at the path "@ + path,
        ErrorView::InvalidDeposit(path, amount) => "invalid deposit of "@ + money_text(amount, 2)
            + " to "@ + path + ", "@ + path + " is a derived account"@,
        ErrorView::UnwrapNode => "UnwrapNode"@,
        ErrorView::Parse(text) => "invalid expression: '"@ + text + "'"@,
    }
}

impl ErrorKind {
    /// The message of the error, for a reader.
    pub fn message(&self) -> (text: String)
        ensures
            text@ == message_text(self@),
    {
        match self {
            ErrorKind::InvalidAccountName(path) => {
                let mut text = "invalid account name: '".to_owned();
                text.append(path.as_str());
                text.append("'");
                text
            },
            ErrorKind::AlreadyExists(path) => {
                let mut text = "an account already exists at the path ".to_owned();
                text.append(path.as_str());
                text
            },
            ErrorKind::InvalidDeposit(path, amount) => {
                let mut text = "invalid deposit of ".to_owned();
                let amount_text = amount.to_string();
                text.append(amount_text.as_str());
                text.append(" to ");
                text.append(path.as_str());
                text.append(", ");
                text.append(path.as_str());
                text.append(" is a derived account");
                text
            },
            ErrorKind::UnwrapNode => "UnwrapNode".to_owned(),
            ErrorKind::Parse(source) => {
                let mut text = "invalid expression: '".to_owned();
                text.append(source.as_str());
                text.append("'");
                text
            },
        }
    }
}

} // verus!
