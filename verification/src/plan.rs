//! A plan: the accounts to start from and the rules that recur, and the
//! streams of dated events that the rules unfold into.

use crate::accounts::Accounts;
use crate::date::{days_after, year_after, Date};
use crate::history::{History, HistoryView};
use crate::iterators::{SortedIterator, Stream};
use crate::merge::{lemma_merged_sorted, merged, sorted};
use crate::ledger::{AmountView, TransactionView};
use crate::money::{truncated_quotient, Money, Rate};
use crate::transaction::{Amount, CompoundedInterest, InterestView, Transaction};
use vstd::prelude::*;

verus! {

/// How often a rule recurs.
#[derive(Clone, Copy, Debug, PartialEq, Eq, Structural)]
pub enum Frequency {
    /// Every calendar year, on the same month and day.
    Annually,
    /// Every four weeks.
    Monthly,
    /// Every two weeks.
    BiWeekly,
    /// A single time.
    Once,
}

/// A transfer of a fixed amount that recurs.
#[derive(Debug, PartialEq, Eq)]
pub struct MoneyTransfer {
    pub amount: Money,
    pub from: String,
    pub to: String,
    pub frequency: Frequency,
    pub start_date: Option<Date>,
    pub end_date: Option<Date>,
}

/// Interest that accrues on an account once per period.
#[derive(Debug, PartialEq, Eq)]
pub struct CompoundingInterest {
    pub account: String,
    /// The rate of a year.
    pub interest_rate: Rate,
    pub period: Frequency,
    pub start_date: Option<Date>,
    pub end_date: Option<Date>,
}

/// A recurring rule.
#[derive(Debug, PartialEq, Eq)]
pub enum Rule {
    RepeatingMoney(MoneyTransfer),
    CompoundingInterest(CompoundingInterest),
}

/// The accounts to start from and the named rules, in the order in which they
/// were declared.
#[derive(Debug, PartialEq, Eq)]
pub struct Plan {
    pub accounts: Accounts,
    pub rules: Vec<(String, Rule)>,
}

/// The day on which a rule of the given frequency recurs after `day`, if it does.
pub open spec fn step(day: int, frequency: Frequency) -> Option<int> {
    match frequency {
        Frequency::Annually => year_after(day),
        Frequency::Monthly => days_after(day, 28),
        Frequency::BiWeekly => days_after(day, 14),
        Frequency::Once => None,
    }
}

/// The days on which a rule of the given frequency recurs, from `day` on.
pub open spec fn dates_from(day: int, frequency: Frequency) -> Seq<int>
    decreases i32::MAX - day,
{
    match step(day, frequency) {
        Some(next) => {
            proof {
                lemma_step_rises(day, frequency);
            }
            seq![day] + dates_from(next, frequency)
        },
        None => seq![day],
    }
}

/// A rule recurs on a later day, within the days that can be numbered.
pub proof fn lemma_step_rises(day: int, frequency: Frequency)
    ensures
        step(day, frequency) matches Some(next) ==> day < next <= i32::MAX,
{
}

/// The day number of a day that may be given.
pub open spec fn day_of(date: Option<Date>) -> Option<int> {
    match date {
        Some(day) => Some(day@),
        None => None,
    }
}

/// The days on which a rule of the given frequency recurs, from `day` on and
/// not after `end`: the rule ends with its last day that is not after `end`.
/// A rule without an end goes on while there are days.
pub open spec fn dates_within(day: int, frequency: Frequency, end: Option<int>) -> Seq<int>
    decreases i32::MAX - day,
{
    if end matches Some(last) && last < day {
        Seq::empty()
    } else {
        match step(day, frequency) {
            Some(next) => {
                proof {
                    lemma_step_rises(day, frequency);
                }
                seq![day] + dates_within(next, frequency, end)
            },
            None => seq![day],
        }
    }
}

/// The days that a stream has still to hand out.
pub open spec fn dates_of(date: Option<Date>, frequency: Frequency, end: Option<Date>) -> Seq<int> {
    match date {
        Some(day) => dates_within(day@, frequency, day_of(end)),
        None => Seq::empty(),
    }
}

/// A rule without an end recurs on all the days of its frequency.
pub proof fn lemma_dates_without_end(day: int, frequency: Frequency)
    requires
        day <= i32::MAX,
    ensures
        dates_within(day, frequency, None) == dates_from(day, frequency),
    decreases i32::MAX - day,
{
    match step(day, frequency) {
        Some(next) => {
            lemma_step_rises(day, frequency);
            lemma_dates_without_end(next, frequency);
        },
        None => {},
    }
}

/// The days of a rule with an end are the days of its frequency up to the
/// last one that is not after the end: none of them is after the end, and the
/// day of the frequency that would come next is.
pub proof fn lemma_dates_end(day: int, frequency: Frequency, last: int)
    requires
        day <= i32::MAX,
    ensures
        dates_within(day, frequency, Some(last)).len() <= dates_from(day, frequency).len(),
        dates_within(day, frequency, Some(last)) == dates_from(day, frequency).take(
            dates_within(day, frequency, Some(last)).len() as int,
        ),
        forall|i: int|
            0 <= i < dates_within(day, frequency, Some(last)).len() ==> #[trigger] dates_within(
                day,
                frequency,
                Some(last),
            )[i] <= last,
        dates_within(day, frequency, Some(last)).len() < dates_from(day, frequency).len()
            ==> dates_from(day, frequency)[dates_within(day, frequency, Some(last)).len() as int]
            > last,
    decreases i32::MAX - day,
{
    let within = dates_within(day, frequency, Some(last));
    let all = dates_from(day, frequency);
    if last < day {
        assert(within =~= all.take(0));
    } else {
        match step(day, frequency) {
            Some(next) => {
                lemma_step_rises(day, frequency);
                lemma_dates_end(next, frequency, last);
                let tail = dates_within(next, frequency, Some(last));
                let rest = dates_from(next, frequency);
                assert(within == seq![day] + tail);
                assert(all == seq![day] + rest);
                assert(within =~= all.take(within.len() as int)) by {
                    assert forall|i: int| 0 <= i < within.len() implies within[i] == all[i] by {
                        if i > 0 {
                            assert(within[i] == tail[i - 1]);
                            assert(all[i] == rest[i - 1]);
                            assert(tail[i - 1] == rest.take(tail.len() as int)[i - 1]);
                        }
                    }
                }
                assert forall|i: int| 0 <= i < within.len() implies #[trigger] within[i]
                    <= last by {
                    if i > 0 {
                        assert(within[i] == tail[i - 1]);
                    }
                }
                if within.len() < all.len() {
                    assert(all[within.len() as int] == rest[tail.len() as int]);
                }
            },
            None => {
                assert(within =~= all.take(1));
            },
        }
    }
}

/// The days of a stream rise strictly.
pub proof fn lemma_dates_rise(day: int, frequency: Frequency)
    requires
        day <= i32::MAX,
    ensures
        dates_from(day, frequency).len() >= 1,
        dates_from(day, frequency)[0] == day,
        forall|i: int, j: int|
            0 <= i < j < dates_from(day, frequency).len() ==> dates_from(day, frequency)[i]
                < dates_from(day, frequency)[j],
        forall|i: int|
            0 <= i < dates_from(day, frequency).len() ==> day <= #[trigger] dates_from(
                day,
                frequency,
            )[i],
    decreases i32::MAX - day,
{
    match step(day, frequency) {
        Some(next) => {
            lemma_step_rises(day, frequency);
            lemma_dates_rise(next, frequency);
            let tail = dates_from(next, frequency);
            let all = dates_from(day, frequency);
            assert(all == seq![day] + tail);
            assert forall|i: int, j: int| 0 <= i < j < all.len() implies all[i] < all[j] by {
                assert(all[j] == tail[j - 1]);
                if i > 0 {
                    assert(all[i] == tail[i - 1]);
                }
            }
            assert forall|i: int| 0 <= i < all.len() implies day <= #[trigger] all[i] by {
                if i > 0 {
                    assert(all[i] == tail[i - 1]);
                }
            }
        },
        None => {},
    }
}

/// The days of a rule rise strictly, with or without an end.
pub proof fn lemma_dates_within_rise(day: int, frequency: Frequency, end: Option<int>)
    requires
        day <= i32::MAX,
    ensures
        forall|i: int, j: int|
            0 <= i < j < dates_within(day, frequency, end).len() ==> dates_within(
                day,
                frequency,
                end,
            )[i] < dates_within(day, frequency, end)[j],
{
    lemma_dates_rise(day, frequency);
    let all = dates_from(day, frequency);
    let within = dates_within(day, frequency, end);
    match end {
        Some(last) => {
            lemma_dates_end(day, frequency, last);
            assert forall|i: int, j: int| 0 <= i < j < within.len() implies within[i]
                < within[j] by {
                assert(within[i] == all.take(within.len() as int)[i]);
                assert(within[j] == all.take(within.len() as int)[j]);
            }
        },
        None => {
            lemma_dates_without_end(day, frequency);
        },
    }
}

/// The days on which a rule recurs, handed out one by one.
#[derive(Clone, Copy, Debug, PartialEq, Eq)]
pub struct DateStream {
    /// The day to hand out next.
    pub date: Option<Date>,
    pub frequency: Frequency,
    /// The day after which the stream hands out no more.
    pub end: Option<Date>,
}

impl DateStream {
    /// The stream of the given frequency that starts at `date`, or at `today`
    /// where no day is given.
    fn new(date: Option<Date>, frequency: Frequency, today: Date) -> (stream: DateStream)
        ensures
            stream.frequency == frequency,
            stream.end is None,
            stream.date == Some(
                match date {
                    Some(day) => day,
                    None => today,
                },
            ),
            stream.remaining() == dates_from(first_day(date, today@), frequency),
    {
        proof {
            lemma_dates_without_end(first_day(date, today@), frequency);
        }
        DateStream {
            date: match date {
                Some(day) => Some(day),
                None => Some(today),
            },
            frequency,
            end: None,
        }
    }

    /// The stream of the given frequency that starts at `date`, or at `today`
    /// where no day is given, and hands out no day after `end`.
    pub fn within(frequency: Frequency, date: Option<Date>, end: Option<Date>, today: Date) -> (stream:
        DateStream)
        ensures
            stream.remaining() == dates_within(first_day(date, today@), frequency, day_of(end)),
    {
        DateStream {
            date: match date {
                Some(day) => Some(day),
                None => Some(today),
            },
            frequency,
            end,
        }
    }

    /// The stream of the same day of every year, from `date` on, or from `today`.
    pub fn yearly(date: Option<Date>, today: Date) -> (stream: DateStream)
        ensures
            stream.remaining() == dates_from(
                match date {
                    Some(day) => day@,
                    None => today@,
                },
                Frequency::Annually,
            ),
    {
        DateStream::new(date, Frequency::Annually, today)
    }

    /// The stream of every fourth week, from `date` on, or from `today`.
    pub fn monthly(date: Option<Date>, today: Date) -> (stream: DateStream)
        ensures
            stream.remaining() == dates_from(
                match date {
                    Some(day) => day@,
                    None => today@,
                },
                Frequency::Monthly,
            ),
    {
        DateStream::new(date, Frequency::Monthly, today)
    }

    /// The stream of every second week, from `date` on, or from `today`.
    pub fn biweekly(date: Option<Date>, today: Date) -> (stream: DateStream)
        ensures
            stream.remaining() == dates_from(
                match date {
                    Some(day) => day@,
                    None => today@,
                },
                Frequency::BiWeekly,
            ),
    {
        DateStream::new(date, Frequency::BiWeekly, today)
    }

    /// The stream of a single day.
    pub fn once(date: Option<Date>, today: Date) -> (stream: DateStream)
        ensures
            stream.remaining() == seq![
                match date {
                    Some(day) => day@,
                    None => today@,
                },
            ],
    {
        let stream = DateStream::new(date, Frequency::Once, today);
        proof {
            lemma_once_is_one_day(first_day(date, today@));
        }
        stream
    }

    /// The stream of the given frequency.
    pub fn from(frequency: Frequency, date: Option<Date>, today: Date) -> (stream: DateStream)
        ensures
            stream.remaining() == dates_from(
                match date {
                    Some(day) => day@,
                    None => today@,
                },
                frequency,
            ),
    {
        match frequency {
            Frequency::Annually => DateStream::yearly(date, today),
            Frequency::Monthly => DateStream::monthly(date, today),
            Frequency::BiWeekly => DateStream::biweekly(date, today),
            Frequency::Once => {
                let stream = DateStream::once(date, today);
                stream
            },
        }
    }
}

/// The same day of the next year.
pub fn next_year(previous_date: Date) -> (next: Option<Date>)
    ensures
        match next {
            Some(day) => step(previous_date@, Frequency::Annually) == Some(day@),
            None => step(previous_date@, Frequency::Annually) is None,
        },
{
    previous_date.next_year()
}

/// The day four weeks later.
pub fn next_month(previous_date: Date) -> (next: Option<Date>)
    ensures
        match next {
            Some(day) => step(previous_date@, Frequency::Monthly) == Some(day@),
            None => step(previous_date@, Frequency::Monthly) is None,
        },
{
    previous_date.plus_days(28)
}

/// The day two weeks later.
pub fn next_biweek(previous_date: Date) -> (next: Option<Date>)
    ensures
        match next {
            Some(day) => step(previous_date@, Frequency::BiWeekly) == Some(day@),
            None => step(previous_date@, Frequency::BiWeekly) is None,
        },
{
    previous_date.plus_days(14)
}

/// No day: a rule that fires once does not recur.
pub fn once(_previous_date: Date) -> (next: Option<Date>)
    ensures
        next is None,
{
    None
}

impl Stream for DateStream {
    type Item = Date;

    open spec fn remaining(&self) -> Seq<int> {
        dates_of(self.date, self.frequency, self.end)
    }

    fn next(&mut self) -> (item: Option<Date>) {
        match self.date {
            Some(day) => {
                let over = match self.end {
                    Some(last) => last.days < day.days,
                    None => false,
                };
                if over {
                    self.date = None;
                    return None;
                }
                let following = match self.frequency {
                    Frequency::Annually => next_year(day),
                    Frequency::Monthly => next_month(day),
                    Frequency::BiWeekly => next_biweek(day),
                    Frequency::Once => once(day),
                };
                proof {
                    let all = dates_within(day@, self.frequency, day_of(self.end));
                    match following {
                        Some(next) => {
                            assert(all.drop_first() =~= dates_within(
                                next@,
                                self.frequency,
                                day_of(self.end),
                            ));
                        },
                        None => {
                            assert(all.drop_first() =~= Seq::<int>::empty());
                        },
                    }
                }
                self.date = following;
                Some(day)
            },
            None => None,
        }
    }
}

/// The transactions of a transfer on the given days.
pub open spec fn transactions_on(
    days: Seq<int>,
    amount: AmountView,
    from: Seq<char>,
    to: Seq<char>,
) -> Seq<TransactionView> {
    Seq::new(days.len(), |i: int| TransactionView { amount, from, to, date: days[i] })
}

/// The accruals of interest on the given days.
pub open spec fn accruals_on(days: Seq<int>, rate: int, account: Seq<char>) -> Seq<InterestView> {
    Seq::new(days.len(), |i: int| InterestView { date: days[i], amount: rate, account })
}

/// A recurring transfer, unfolded into one transaction per day of its stream.
pub struct RepeatingTransaction {
    pub iterator: DateStream,
    pub amount: Amount,
    pub from: String,
    pub to: String,
}

impl RepeatingTransaction {
    /// The transactions of `amount` from `from` to `to` on the days of `iterator`.
    pub fn new(iterator: DateStream, amount: Amount, from: String, to: String) -> (stream:
        RepeatingTransaction)
        ensures
            stream.remaining() == transactions_on(iterator.remaining(), amount@, from@, to@),
    {
        RepeatingTransaction { iterator, amount, from, to }
    }

    /// The transactions of a transfer rule. A rule without a first day starts
    /// on `today`.
    pub fn from(transfer: MoneyTransfer, today: Date) -> (stream: RepeatingTransaction)
        ensures
            stream.remaining() == transfer_events(transfer, today@),
    {
        RepeatingTransaction::new(
            DateStream::within(transfer.frequency, transfer.start_date, transfer.end_date, today),
            Amount::Money(transfer.amount),
            transfer.from,
            transfer.to,
        )
    }
}

impl Stream for RepeatingTransaction {
    type Item = Transaction;

    open spec fn remaining(&self) -> Seq<TransactionView> {
        transactions_on(self.iterator.remaining(), self.amount@, self.from@, self.to@)
    }

    fn next(&mut self) -> (item: Option<Transaction>) {
        let ghost days = self.iterator.remaining();
        let ghost before = self.remaining();
        match self.iterator.next() {
            Some(next_date) => {
                proof {
                    assert(self.remaining() =~= before.drop_first());
                }
                Some(
                    Transaction::new(
                        self.amount.clone(),
                        self.from.clone(),
                        self.to.clone(),
                        next_date,
                    ),
                )
            },
            None => None,
        }
    }
}

/// A rule of compounding interest, unfolded into one accrual per day of its
/// stream.
pub struct InterestStream {
    pub iterator: DateStream,
    /// The rate of a period.
    pub interest_rate: Rate,
    pub account: String,
}

/// The rate of one period of the given frequency, for the rate of a year: the
/// year's rate by the number of periods in a year, cut to whole billionths.
pub open spec fn period_rate(interest: int, period: Frequency) -> int {
    match period {
        Frequency::Annually => interest,
        Frequency::Monthly => truncated_quotient(interest, 12),
        Frequency::BiWeekly => truncated_quotient(interest, 26),
        Frequency::Once => interest,
    }
}

/// The quotient of a rate by a small positive number, rounded toward zero.
fn divide_rate(interest: Rate, periods: i64) -> (rate: Rate)
    requires
        0 < periods,
    ensures
        rate@ == truncated_quotient(interest@, periods as int),
{
    if interest.billionths >= 0 {
        Rate { billionths: interest.billionths / periods }
    } else {
        let magnitude: u64 = (-(interest.billionths + 1)) as u64 + 1;
        let quotient: u64 = magnitude / (periods as u64);
        assert(quotient <= magnitude);
        if quotient > 0x7fff_ffff_ffff_ffff {
            Rate { billionths: i64::MIN }
        } else {
            Rate { billionths: -(quotient as i64) }
        }
    }
}

/// The rate of one period of the given frequency, for the rate of a year.
pub fn interest_per_period(interest: Rate, period: &Frequency) -> (rate: Rate)
    ensures
        rate@ == period_rate(interest@, *period),
{
    match period {
        Frequency::Annually => interest,
        Frequency::Monthly => divide_rate(interest, 12),
        Frequency::BiWeekly => divide_rate(interest, 26),
        Frequency::Once => interest,
    }
}

impl InterestStream {
    /// The accruals at `interest_rate` on `account` on the days of `iterator`.
    pub fn new(iterator: DateStream, interest_rate: Rate, account: String) -> (stream:
        InterestStream)
        ensures
            stream.remaining() == accruals_on(iterator.remaining(), interest_rate@, account@),
    {
        InterestStream { iterator, interest_rate, account }
    }

    /// The accruals of an interest rule. A rule without a first day starts on
    /// `today`.
    pub fn from(rule: CompoundingInterest, today: Date) -> (stream: InterestStream)
        ensures
            stream.remaining() == interest_events(rule, today@),
    {
        let interest_rate = interest_per_period(rule.interest_rate, &rule.period);
        InterestStream::new(
            DateStream::within(rule.period, rule.start_date, rule.end_date, today),
            interest_rate,
            rule.account,
        )
    }
}

impl Stream for InterestStream {
    type Item = CompoundedInterest;

    open spec fn remaining(&self) -> Seq<InterestView> {
        accruals_on(self.iterator.remaining(), self.interest_rate@, self.account@)
    }

    fn next(&mut self) -> (item: Option<CompoundedInterest>) {
        let ghost before = self.remaining();
        match self.iterator.next() {
            Some(next_date) => {
                proof {
                    assert(self.remaining() =~= before.drop_first());
                }
                Some(CompoundedInterest::new(next_date, self.interest_rate, self.account.clone()))
            },
            None => None,
        }
    }
}

/// The first day of a rule: the day it names, or `today`.
pub open spec fn first_day(start: Option<Date>, today: int) -> int {
    match start {
        Some(day) => day@,
        None => today,
    }
}

/// The transactions that a transfer rule unfolds into: one on every day on
/// which the rule recurs, from its first day on and not after its end date.
pub open spec fn transfer_events(transfer: MoneyTransfer, today: int) -> Seq<TransactionView> {
    transactions_on(
        dates_within(
            first_day(transfer.start_date, today),
            transfer.frequency,
            day_of(transfer.end_date),
        ),
        AmountView::Money(transfer.amount@),
        transfer.from@,
        transfer.to@,
    )
}

/// The accruals that an interest rule unfolds into: one on every day on which
/// the rule recurs, from its first day on and not after its end date.
pub open spec fn interest_events(rule: CompoundingInterest, today: int) -> Seq<InterestView> {
    accruals_on(
        dates_within(first_day(rule.start_date, today), rule.period, day_of(rule.end_date)),
        period_rate(rule.interest_rate@, rule.period),
        rule.account@,
    )
}

/// The transactions of the transfer rules among `rules`, rule by rule.
pub open spec fn transfer_sources(rules: Seq<(String, Rule)>, today: int) -> Seq<
    Seq<TransactionView>,
>
    decreases rules.len(),
{
    if rules.len() == 0 {
        Seq::empty()
    } else {
        let before = transfer_sources(rules.drop_last(), today);
        match rules.last().1 {
            Rule::RepeatingMoney(transfer) => before.push(transfer_events(transfer, today)),
            Rule::CompoundingInterest(_) => before,
        }
    }
}

/// The accruals of the interest rules among `rules`, rule by rule.
pub open spec fn interest_sources(rules: Seq<(String, Rule)>, today: int) -> Seq<
    Seq<InterestView>,
>
    decreases rules.len(),
{
    if rules.len() == 0 {
        Seq::empty()
    } else {
        let before = interest_sources(rules.drop_last(), today);
        match rules.last().1 {
            Rule::RepeatingMoney(_) => before,
            Rule::CompoundingInterest(rule) => before.push(interest_events(rule, today)),
        }
    }
}

/// What each of the given streams has still to hand out.
pub open spec fn remaining_of<P: Stream>(streams: Seq<P>) -> Seq<Seq<<P::Item as View>::V>> {
    Seq::new(streams.len(), |i: int| streams[i].remaining())
}

/// The transactions of every transfer rule come in the order of their days.
pub proof fn lemma_transfer_sources_sorted(rules: Seq<(String, Rule)>, today: Date)
    ensures
        forall|j: int|
            0 <= j < transfer_sources(rules, today@).len() ==> sorted::<Transaction>(
                #[trigger] transfer_sources(rules, today@)[j],
            ),
    decreases rules.len(),
{
    if rules.len() > 0 {
        lemma_transfer_sources_sorted(rules.drop_last(), today);
        let before = transfer_sources(rules.drop_last(), today@);
        let all = transfer_sources(rules, today@);
        match rules.last().1 {
            Rule::RepeatingMoney(transfer) => {
                lemma_dates_within_rise(
                    first_day(transfer.start_date, today@),
                    transfer.frequency,
                    day_of(transfer.end_date),
                );
                assert(sorted::<Transaction>(transfer_events(transfer, today@)));
                assert forall|j: int| 0 <= j < all.len() implies sorted::<Transaction>(
                    #[trigger] all[j],
                ) by {
                    if j < before.len() {
                        assert(all[j] == before[j]);
                    }
                }
            },
            Rule::CompoundingInterest(_) => {},
        }
    }
}

/// The accruals of every interest rule come in the order of their days.
pub proof fn lemma_interest_sources_sorted(rules: Seq<(String, Rule)>, today: Date)
    ensures
        forall|j: int|
            0 <= j < interest_sources(rules, today@).len() ==> sorted::<CompoundedInterest>(
                #[trigger] interest_sources(rules, today@)[j],
            ),
    decreases rules.len(),
{
    if rules.len() > 0 {
        lemma_interest_sources_sorted(rules.drop_last(), today);
        let before = interest_sources(rules.drop_last(), today@);
        let all = interest_sources(rules, today@);
        match rules.last().1 {
            Rule::RepeatingMoney(_) => {},
            Rule::CompoundingInterest(rule) => {
                lemma_dates_within_rise(
                    first_day(rule.start_date, today@),
                    rule.period,
                    day_of(rule.end_date),
                );
                assert(sorted::<CompoundedInterest>(interest_events(rule, today@)));
                assert forall|j: int| 0 <= j < all.len() implies sorted::<CompoundedInterest>(
                    #[trigger] all[j],
                ) by {
                    if j < before.len() {
                        assert(all[j] == before[j]);
                    }
                }
            },
        }
    }
}

/// The events of a plan come in the order of their days: the merged
/// transactions do, and so do the merged accruals of interest.
pub proof fn lemma_plan_events_sorted(rules: Seq<(String, Rule)>, today: Date)
    ensures
        sorted::<Transaction>(merged::<Transaction>(transfer_sources(rules, today@))),
        sorted::<CompoundedInterest>(
            merged::<CompoundedInterest>(interest_sources(rules, today@)),
        ),
{
    lemma_transfer_sources_sorted(rules, today);
    lemma_interest_sources_sorted(rules, today);
    lemma_merged_sorted::<Transaction>(transfer_sources(rules, today@));
    lemma_merged_sorted::<CompoundedInterest>(interest_sources(rules, today@));
}

/// A stream of frequency `Once` hands out exactly one day.
pub proof fn lemma_once_is_one_day(day: int)
    ensures
        dates_from(day, Frequency::Once) == seq![day],
{
}

impl Plan {
    /// The transactions of all transfer rules, merged by day.
    pub fn transactions(&self, today: Date) -> (merge: SortedIterator<RepeatingTransaction>)
        ensures
            merge.remaining() == merged::<Transaction>(transfer_sources(self.rules@, today@)),
    {
        let mut iters: Vec<RepeatingTransaction> = Vec::new();
        let mut i: usize = 0;
        proof {
            assert(self.rules@.take(0) =~= Seq::empty());
            assert(remaining_of(iters@) =~= Seq::empty());
        }
        while i < self.rules.len()
            invariant
                i <= self.rules@.len(),
                remaining_of(iters@) == transfer_sources(self.rules@.take(i as int), today@),
            decreases self.rules@.len() - i,
        {
            proof {
                assert(self.rules@.take(i + 1).drop_last() =~= self.rules@.take(i as int));
            }
            match &self.rules[i].1 {
                Rule::RepeatingMoney(transfer) => {
                    let stream = RepeatingTransaction::new(
                        DateStream::within(
                            transfer.frequency,
                            transfer.start_date,
                            transfer.end_date,
                            today,
                        ),
                        Amount::Money(transfer.amount.clone()),
                        transfer.from.clone(),
                        transfer.to.clone(),
                    );
                    proof {
                        assert(remaining_of(iters@.push(stream)) =~= remaining_of(iters@).push(
                            stream.remaining(),
                        ));
                    }
                    iters.push(stream);
                },
                Rule::CompoundingInterest(_) => {},
            }
            i = i + 1;
        }
        proof {
            assert(self.rules@.take(i as int) =~= self.rules@);
            assert(remaining_of(iters@) =~= Seq::new(
                iters@.len(),
                |i: int| iters@[i].remaining(),
            ));
        }
        SortedIterator::from_iter(iters)
    }

    /// The simulation of the plan over the checkpoint days `dates`, from the
    /// plan's accounts on. Rules that name no first day start on `today`.
    pub fn history<D: Stream<Item = Date>>(&self, dates: D, today: Date) -> (history: History<
        SortedIterator<RepeatingTransaction>,
        SortedIterator<InterestStream>,
        D,
    >)
        ensures
            history@ == (HistoryView {
                transactions: merged::<Transaction>(transfer_sources(self.rules@, today@)),
                interest: merged::<CompoundedInterest>(interest_sources(self.rules@, today@)),
                dates: dates.remaining(),
                date: today@,
                accounts: self.accounts@,
                failed: false,
            }),
    {
        History::new(
            (today, self.accounts.clone()),
            self.transactions(today),
            self.compounding(today),
            dates,
        )
    }

    /// The accruals of all interest rules, merged by day.
    pub fn compounding(&self, today: Date) -> (merge: SortedIterator<InterestStream>)
        ensures
            merge.remaining() == merged::<CompoundedInterest>(
                interest_sources(self.rules@, today@),
            ),
    {
        let mut iters: Vec<InterestStream> = Vec::new();
        let mut i: usize = 0;
        proof {
            assert(self.rules@.take(0) =~= Seq::empty());
            assert(remaining_of(iters@) =~= Seq::empty());
        }
        while i < self.rules.len()
            invariant
                i <= self.rules@.len(),
                remaining_of(iters@) == interest_sources(self.rules@.take(i as int), today@),
            decreases self.rules@.len() - i,
        {
            proof {
                assert(self.rules@.take(i + 1).drop_last() =~= self.rules@.take(i as int));
            }
            match &self.rules[i].1 {
                Rule::RepeatingMoney(_) => {},
                Rule::CompoundingInterest(rule) => {
                    let stream = InterestStream::new(
                        DateStream::within(rule.period, rule.start_date, rule.end_date, today),
                        interest_per_period(rule.interest_rate, &rule.period),
                        rule.account.clone(),
                    );
                    proof {
                        assert(remaining_of(iters@.push(stream)) =~= remaining_of(iters@).push(
                            stream.remaining(),
                        ));
                    }
                    iters.push(stream);
                },
            }
            i = i + 1;
        }
        proof {
            assert(self.rules@.take(i as int) =~= self.rules@);
            assert(remaining_of(iters@) =~= Seq::new(
                iters@.len(),
                |i: int| iters@[i].remaining(),
            ));
        }
        SortedIterator::from_iter(iters)
    }
}

} // verus!
