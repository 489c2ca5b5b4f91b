//! Dated events: transfers between accounts and interest accruals.

use crate::accounts::Accounts;
use crate::date::{date_text, day_text, Date};
use crate::errors::ErrorKind;
use crate::iterators::Keyed;
use crate::ledger::{resolved, AmountView, TransactionView};
use crate::money::{money_text, percent_text, rate_text, Money, Rate};
use vstd::prelude::*;

verus! {

/// What a transaction moves: a fixed amount, or a share of what the debited
/// account holds when the transaction is applied.
#[derive(Debug, PartialEq, Eq)]
pub enum Amount {
    Money(Money),
    Percent(Rate),
}

impl View for Amount {
    type V = AmountView;

    open spec fn view(&self) -> AmountView {
        match self {
            Amount::Money(m) => AmountView::Money(m@),
            Amount::Percent(rate) => AmountView::Percent(rate@),
        }
    }
}

impl Clone for Amount {
    fn clone(&self) -> (copy: Amount)
        ensures
            copy@ == self@,
    {
        match self {
            Amount::Money(m) => Amount::Money(m.clone()),
            Amount::Percent(rate) => Amount::Percent(*rate),
        }
    }
}

/// The text of an amount: money with two decimals, a rate as a decimal number.
pub open spec fn amount_text(amount: AmountView) -> Seq<char> {
    match amount {
        AmountView::Money(m) => money_text(m, 2),
        AmountView::Percent(rate) => rate_text(rate),
    }
}

/// The text of a transaction whose day is written `date`.
pub open spec fn transaction_text(t: TransactionView, date: Seq<char>) -> Seq<char> {
    "["@ + t.from + "] sending ("@ + amount_text(t.amount) + ") to ["@ + t.to + "] on {"@ + date
        + "}"@
}

/// The text of an accrual of interest whose day is written `date`.
pub open spec fn interest_text(interest: InterestView, date: Seq<char>) -> Seq<char> {
    percent_text(interest.amount) + "% for ["@ + interest.account + "] on ("@ + date + ")"@
}

impl Amount {
    /// The amount as text.
    pub fn to_string(&self) -> (text: String)
        ensures
            text@ == amount_text(self@),
    {
        match self {
            Amount::Money(m) => m.to_string(),
            Amount::Percent(rate) => rate.to_string(),
        }
    }

    /// The fixed amount `money`.
    pub fn from_money(money: Money) -> (amount: Amount)
        ensures
            amount@ == AmountView::Money(money@),
    {
        Amount::Money(money)
    }

    /// The share `percent` of the debited account.
    pub fn from_rate(percent: Rate) -> (amount: Amount)
        ensures
            amount@ == AmountView::Percent(percent@),
    {
        Amount::Percent(percent)
    }

    /// The money that the amount comes to when it is taken from the account at
    /// `from`.
    pub fn eval(&self, accounts: &Accounts, from: &str) -> (r: Result<Money, ErrorKind>)
        ensures
            match resolved(self@, accounts@, from@) {
                Ok(amount) => r is Ok && r->Ok_0@ == amount,
                Err(error) => r is Err && r->Err_0@ == error,
            },
    {
        let evaluated = match accounts.eval() {
            Ok(evaluated) => evaluated,
            Err(error) => {
                return Err(error);
            },
        };
        match self {
            Amount::Money(m) => Ok(m.clone()),
            Amount::Percent(rate) => match evaluated.get(from) {
                Some(balance) => Ok(balance.clone().mul_percent(*rate)),
                None => Err(ErrorKind::InvalidAccountName(from.to_owned())),
            },
        }
    }
}

/// A transfer of an amount from one account to another on a day.
#[derive(Debug, PartialEq, Eq)]
pub struct Transaction {
    pub amount: Amount,
    pub from: String,
    pub to: String,
    pub date: Date,
}

impl View for Transaction {
    type V = TransactionView;

    open spec fn view(&self) -> TransactionView {
        TransactionView {
            amount: self.amount@,
            from: self.from@,
            to: self.to@,
            date: self.date@,
        }
    }
}

impl Clone for Transaction {
    fn clone(&self) -> (copy: Transaction)
        ensures
            copy@ == self@,
    {
        Transaction {
            amount: self.amount.clone(),
            from: self.from.clone(),
            to: self.to.clone(),
            date: self.date,
        }
    }
}

impl Transaction {
    /// The transaction of `amount` from `from` to `to` on `date`.
    pub fn new(amount: Amount, from: String, to: String, date: Date) -> (t: Transaction)
        ensures
            t.amount == amount,
            t.from == from,
            t.to == to,
            t.date == date,
    {
        Transaction { amount, from, to, date }
    }

    /// The transaction as text: its accounts, its amount and its day.
    pub fn to_string(&self) -> (text: String)
        ensures
            text@ == transaction_text(self@, day_text(self.date@, date_text(self.date@))),
    {
        let mut text = "[".to_owned();
        text.append(self.from.as_str());
        text.append("] sending (");
        let amount = self.amount.to_string();
        text.append(amount.as_str());
        text.append(") to [");
        text.append(self.to.as_str());
        text.append("] on {");
        let date = self.date.to_string();
        text.append(date.as_str());
        text.append("}");
        text
    }

    /// The money that the transaction moves, resolved against `accounts`.
    pub fn eval_from_amount(&self, accounts: &Accounts) -> (r: Result<Money, ErrorKind>)
        ensures
            match resolved(self@.amount, accounts@, self@.from) {
                Ok(amount) => r is Ok && r->Ok_0@ == amount,
                Err(error) => r is Err && r->Err_0@ == error,
            },
    {
        self.amount.eval(accounts, self.from.as_str())
    }
}

/// Interest of one period, due on a day on the balance of an account.
pub struct InterestView {
    pub date: int,
    pub amount: int,
    pub account: Seq<char>,
}

/// Interest of one period, due on a day on the balance of an account.
#[derive(Debug, PartialEq, Eq)]
pub struct CompoundedInterest {
    pub date: Date,
    /// The rate of the period.
    pub amount: Rate,
    pub account: String,
}

impl View for CompoundedInterest {
    type V = InterestView;

    open spec fn view(&self) -> InterestView {
        InterestView { date: self.date@, amount: self.amount@, account: self.account@ }
    }
}

impl CompoundedInterest {
    /// The accrual as text: its rate in hundredths, its account and its day.
    pub fn to_string(&self) -> (text: String)
        ensures
            text@ == interest_text(self@, day_text(self.date@, date_text(self.date@))),
    {
        let mut text = self.amount.percent();
        text.append("% for [");
        text.append(self.account.as_str());
        text.append("] on (");
        let date = self.date.to_string();
        text.append(date.as_str());
        text.append(")");
        text
    }

    /// The accrual at the rate `amount` on `account` on `date`.
    pub fn new(date: Date, amount: Rate, account: String) -> (interest: CompoundedInterest)
        ensures
            interest.date == date,
            interest.amount == amount,
            interest.account == account,
    {
        CompoundedInterest { date, amount, account }
    }
}

impl Clone for CompoundedInterest {
    fn clone(&self) -> (copy: CompoundedInterest)
        ensures
            copy@ == self@,
    {
        CompoundedInterest {
            date: self.date,
            amount: self.amount,
            account: self.account.clone(),
        }
    }
}

/// Transactions are ordered by their day.
impl Keyed for Transaction {
    open spec fn key(v: TransactionView) -> int {
        v.date
    }

    fn sort_key(&self) -> (k: i64) {
        self.date.days as i64
    }
}

/// Interest accruals are ordered by their day.
impl Keyed for CompoundedInterest {
    open spec fn key(v: InterestView) -> int {
        v.date
    }

    fn sort_key(&self) -> (k: i64) {
        self.date.days as i64
    }
}

} // verus!
