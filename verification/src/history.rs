//! The simulation: the accounts are carried from one checkpoint day to the
//! next, and every event that has fallen due by a checkpoint is applied.

use crate::accounts::Accounts;
use crate::date::Date;
use crate::errors::{ErrorKind, ErrorView};
use crate::iterators::{OrdIterator, Stream};
use crate::laws::{lemma_applied_well_named, well_named};
use crate::ledger::{applied, evaluated, listed, AmountView, Ledger, TransactionView};
use crate::money::{portion, Money};
use crate::transaction::{Amount, CompoundedInterest, InterestView, Transaction};
use vstd::prelude::*;

verus! {

/// Where a run of events stopped: the accounts as they then stood, the events
/// that were not taken, and the error that stopped the run, if one did.
pub struct Settled<E> {
    pub ledger: Ledger,
    pub rest: Seq<E>,
    pub error: Option<ErrorView>,
}

/// The account that interest on `account` is paid from.
pub open spec fn interest_source(account: Seq<char>) -> Seq<char> {
    "equity:interest:"@ + account
}

/// The interest of one period on what `account` is worth: nothing where the
/// accounts hold no such account.
pub open spec fn interest_due(entries: Seq<(Seq<char>, int)>, rate: int, account: Seq<char>) -> int {
    match listed(entries, account) {
        Some(balance) => portion(balance, rate),
        None => 0,
    }
}

/// The transaction that pays the interest of one period.
pub open spec fn interest_payment(root: Ledger, interest: InterestView) -> Result<
    TransactionView,
    ErrorView,
> {
    match evaluated(root) {
        Ok(entries) => Ok(
            TransactionView {
                amount: AmountView::Money(interest_due(entries, interest.amount, interest.account)),
                from: interest_source(interest.account),
                to: interest.account,
                date: interest.date,
            },
        ),
        Err(error) => Err(error),
    }
}

/// The accounts after the interest of one period is paid.
pub open spec fn accrued(root: Ledger, interest: InterestView) -> Result<Ledger, ErrorView> {
    match interest_payment(root, interest) {
        Ok(payment) => applied(root, payment),
        Err(error) => Err(error),
    }
}

/// Applies the transactions at the head of `events` that are due by `limit`,
/// each to the accounts as the one before left them, so that a share is taken
/// of the balance of that moment. The run stops at the first transaction that
/// is not due or that fails; the failing one is taken, and leaves the accounts
/// as they were.
pub open spec fn settled(root: Ledger, events: Seq<TransactionView>, limit: int) -> Settled<
    TransactionView,
>
    decreases events.len(),
{
    if events.len() > 0 && events[0].date <= limit {
        match applied(root, events[0]) {
            Ok(next) => settled(next, events.drop_first(), limit),
            Err(error) => Settled { ledger: root, rest: events.drop_first(), error: Some(error) },
        }
    } else {
        Settled { ledger: root, rest: events, error: None }
    }
}

/// Pays the interest of the accruals at the head of `events` that are due by
/// `limit`, and stops at the first that is not due or that fails.
pub open spec fn compounded(root: Ledger, events: Seq<InterestView>, limit: int) -> Settled<
    InterestView,
>
    decreases events.len(),
{
    if events.len() > 0 && events[0].date <= limit {
        match accrued(root, events[0]) {
            Ok(next) => compounded(next, events.drop_first(), limit),
            Err(error) => Settled { ledger: root, rest: events.drop_first(), error: Some(error) },
        }
    } else {
        Settled { ledger: root, rest: events, error: None }
    }
}

/// The events that fall due keep the names of the accounts sound.
pub proof fn lemma_settled_well_named(root: Ledger, events: Seq<TransactionView>, limit: int)
    requires
        well_named(root),
    ensures
        well_named(settled(root, events, limit).ledger),
    decreases events.len(),
{
    if events.len() > 0 && events[0].date <= limit {
        match applied(root, events[0]) {
            Ok(next) => {
                lemma_applied_well_named(root, events[0]);
                lemma_settled_well_named(next, events.drop_first(), limit);
            },
            Err(_) => {},
        }
    }
}

/// The interest that falls due keeps the names of the accounts sound.
pub proof fn lemma_compounded_well_named(root: Ledger, events: Seq<InterestView>, limit: int)
    requires
        well_named(root),
    ensures
        well_named(compounded(root, events, limit).ledger),
    decreases events.len(),
{
    if events.len() > 0 && events[0].date <= limit {
        match accrued(root, events[0]) {
            Ok(next) => {
                lemma_applied_well_named(root, interest_payment(root, events[0])->Ok_0);
                lemma_compounded_well_named(next, events.drop_first(), limit);
            },
            Err(_) => {},
        }
    }
}

/// A step of the simulation keeps the names of the accounts sound.
pub proof fn lemma_stepped_well_named(h: HistoryView)
    requires
        well_named(h.accounts),
    ensures
        well_named(stepped(h).1.accounts),
{
    if !h.failed && h.dates.len() > 0 {
        lemma_settled_well_named(h.accounts, h.transactions, h.dates[0]);
        lemma_compounded_well_named(
            settled(h.accounts, h.transactions, h.dates[0]).ledger,
            h.interest,
            h.dates[0],
        );
    }
}

/// The state of a simulation.
pub struct HistoryView {
    pub transactions: Seq<TransactionView>,
    pub interest: Seq<InterestView>,
    pub dates: Seq<int>,
    pub date: int,
    pub accounts: Ledger,
    pub failed: bool,
}

/// One step of the simulation: what it hands out, and the state after it.
///
/// A simulation that has failed or has no checkpoint left hands out nothing.
/// Otherwise the next checkpoint becomes the current day; the transactions
/// due by it are applied, then the interest due by it is paid; the step hands
/// out the day with the accounts as they then stand. An event that fails ends
/// the simulation: the step hands out its error.
pub open spec fn stepped(h: HistoryView) -> (Option<Result<(int, Ledger), ErrorView>>, HistoryView) {
    if h.failed || h.dates.len() == 0 {
        (None, h)
    } else {
        let day = h.dates[0];
        let moved = settled(h.accounts, h.transactions, day);
        match moved.error {
            Some(error) => (
                Some(Err(error)),
                HistoryView {
                    transactions: moved.rest,
                    interest: h.interest,
                    dates: h.dates.drop_first(),
                    date: day,
                    accounts: moved.ledger,
                    failed: true,
                },
            ),
            None => {
                let paid = compounded(moved.ledger, h.interest, day);
                (
                    match paid.error {
                        Some(error) => Some(Err(error)),
                        None => Some(Ok((day, paid.ledger))),
                    },
                    HistoryView {
                        transactions: moved.rest,
                        interest: paid.rest,
                        dates: h.dates.drop_first(),
                        date: day,
                        accounts: paid.ledger,
                        failed: paid.error is Some,
                    },
                )
            },
        }
    }
}

/// A simulation: the accounts, the events that are still to come and the
/// checkpoint days that are still to be reached.
pub struct History<T: Stream<Item = Transaction>, C: Stream<Item = CompoundedInterest>, D: Stream<
    Item = Date,
>> {
    pub transactions: OrdIterator<T>,
    pub interest: OrdIterator<C>,
    pub dates: D,
    pub state: (Date, Accounts),
    pub failed: bool,
}

impl<T: Stream<Item = Transaction>, C: Stream<Item = CompoundedInterest>, D: Stream<
    Item = Date,
>> View for History<T, C, D> {
    type V = HistoryView;

    open spec fn view(&self) -> HistoryView {
        HistoryView {
            transactions: self.transactions.remaining(),
            interest: self.interest.remaining(),
            dates: self.dates.remaining(),
            date: self.state.0@,
            accounts: self.state.1@,
            failed: self.failed,
        }
    }
}

/// Pays the interest of one period into the account it accrues on.
pub fn pay_interest(accounts: &mut Accounts, interest: CompoundedInterest) -> (r: Result<
    (),
    ErrorKind,
>)
    ensures
        match accrued(old(accounts)@, interest@) {
            Ok(tree) => r is Ok && final(accounts)@ == tree,
            Err(error) => r is Err && r->Err_0@ == error && final(accounts)@ == old(accounts)@,
        },
{
    let evaluated = match accounts.eval() {
        Ok(evaluated) => evaluated,
        Err(error) => {
            return Err(error);
        },
    };
    let amount = match evaluated.get(interest.account.as_str()) {
        Some(balance) => balance.clone().mul_percent(interest.amount),
        None => Money::from_i32(0),
    };
    let mut source = "equity:interest:".to_owned();
    source.append(interest.account.as_str());
    accounts.apply(Transaction::new(Amount::Money(amount), source, interest.account, interest.date))
}

impl<T: Stream<Item = Transaction>, C: Stream<Item = CompoundedInterest>, D: Stream<
    Item = Date,
>> History<T, C, D> {
    /// A simulation that starts from the accounts of `state` and has all the given
    /// events and checkpoint days still to come.
    pub fn new(state: (Date, Accounts), transactions: T, interest: C, dates: D) -> (history: Self)
        ensures
            history@ == (HistoryView {
                transactions: transactions.remaining(),
                interest: interest.remaining(),
                dates: dates.remaining(),
                date: state.0@,
                accounts: state.1@,
                failed: false,
            }),
    {
        History {
            transactions: OrdIterator::new(transactions),
            interest: OrdIterator::new(interest),
            dates,
            state,
            failed: false,
        }
    }

    /// Moves the simulation to the next checkpoint day and hands out that day
    /// with a copy of the accounts as they stand on it.
    pub fn next(&mut self) -> (r: Option<Result<(Date, Accounts), ErrorKind>>)
        ensures
            final(self)@ == stepped(old(self)@).1,
            match r {
                Some(Ok((day, snapshot))) => stepped(old(self)@).0 == Some(
                    Ok::<(int, Ledger), ErrorView>((day@, snapshot@)),
                ),
                Some(Err(error)) => stepped(old(self)@).0 == Some(
                    Err::<(int, Ledger), ErrorView>(error@),
                ),
                None => stepped(old(self)@).0 is None,
            },
            well_named(old(self)@.accounts) ==> well_named(final(self)@.accounts),
    {
        proof {
            if well_named(self@.accounts) {
                lemma_stepped_well_named(self@);
            }
        }
        if self.failed {
            return None;
        }
        let next_date = match self.dates.next() {
            Some(next_date) => next_date,
            None => {
                proof {
                    assert(self.dates.remaining() =~= old(self).dates.remaining());
                }
                return None;
            },
        };
        self.state.0 = next_date;
        let limit: i64 = next_date.days as i64;
        let ghost start = old(self)@;
        proof {
            assert(start.dates.len() > 0 && start.dates[0] == limit);
        }
        loop
            invariant
                !self.failed,
                start == old(self)@,
                well_named(start.accounts) ==> well_named(stepped(start).1.accounts),
                !start.failed,
                start.dates.len() > 0,
                start.dates[0] == limit,
                limit == next_date@,
                self.state.0 == next_date,
                self.dates.remaining() == start.dates.drop_first(),
                self.interest.remaining() == start.interest,
                settled(self.state.1@, self.transactions.remaining(), limit as int) == settled(
                    start.accounts,
                    start.transactions,
                    limit as int,
                ),
            ensures
                !self.failed,
                self.state.0 == next_date,
                self.dates.remaining() == start.dates.drop_first(),
                self.interest.remaining() == start.interest,
                settled(start.accounts, start.transactions, limit as int) == (Settled {
                    ledger: self.state.1@,
                    rest: self.transactions.remaining(),
                    error: None,
                }),
            decreases self.transactions.remaining().len(),
        {
            let consume = match self.transactions.peek_key() {
                Some(day) => day <= limit,
                None => false,
            };
            if !consume {
                break ;
            }
            let transaction = self.transactions.next().unwrap();
            match self.state.1.apply(transaction) {
                Ok(_) => {},
                Err(error) => {
                    self.failed = true;
                    return Some(Err(error));
                },
            }
        }
        let ghost middle = self.state.1@;
        loop
            invariant
                !self.failed,
                start == old(self)@,
                well_named(start.accounts) ==> well_named(stepped(start).1.accounts),
                !start.failed,
                start.dates.len() > 0,
                start.dates[0] == limit,
                limit == next_date@,
                self.state.0 == next_date,
                self.dates.remaining() == start.dates.drop_first(),
                settled(start.accounts, start.transactions, limit as int) == (Settled {
                    ledger: middle,
                    rest: self.transactions.remaining(),
                    error: None,
                }),
                compounded(self.state.1@, self.interest.remaining(), limit as int) == compounded(
                    middle,
                    start.interest,
                    limit as int,
                ),
            ensures
                !self.failed,
                self.state.0 == next_date,
                self.dates.remaining() == start.dates.drop_first(),
                settled(start.accounts, start.transactions, limit as int) == (Settled {
                    ledger: middle,
                    rest: self.transactions.remaining(),
                    error: None,
                }),
                compounded(middle, start.interest, limit as int) == (Settled {
                    ledger: self.state.1@,
                    rest: self.interest.remaining(),
                    error: None,
                }),
            decreases self.interest.remaining().len(),
        {
            let consume = match self.interest.peek_key() {
                Some(day) => day <= limit,
                None => false,
            };
            if !consume {
                break ;
            }
            let interest = self.interest.next().unwrap();
            match pay_interest(&mut self.state.1, interest) {
                Ok(_) => {},
                Err(error) => {
                    self.failed = true;
                    return Some(Err(error));
                },
            }
        }
        Some(Ok((self.state.0, self.state.1.clone())))
    }
}

} // verus!
