use chrono::{Datelike, NaiveDate};
use financial_planner::date::Date;
use financial_planner::iterators::{Keyed, OrdIterator, SortedIterator, Stream, VecStream};
use financial_planner::money::{Money, Rate};
use financial_planner::ordered_iterator::OrderedIterator;
use financial_planner::plan::{
    interest_per_period, next_biweek, next_month, next_year, once, CompoundingInterest,
    DateStream, Frequency, InterestStream, MoneyTransfer, RepeatingTransaction,
};
use financial_planner::transaction::{Amount, CompoundedInterest, Transaction};
use std::cmp::Ordering;

fn day(y: i32, m: u32, d: u32) -> Date {
    Date::from_ymd(y, m, d).unwrap()
}

fn take<S: Stream>(stream: &mut S, count: usize) -> Vec<S::Item> {
    let mut out = Vec::new();
    for _ in 0..count {
        match stream.next() {
            Some(item) => out.push(item),
            None => break,
        }
    }
    out
}

fn all<S: Stream>(stream: &mut S) -> Vec<S::Item> {
    take(stream, usize::MAX)
}

#[test]
fn days_are_counted_as_the_calendar_counts_them() {
    assert_eq!(day(1, 1, 1).days(), 1);
    assert_eq!(day(1970, 1, 1).days(), 719_163);
    let naive = NaiveDate::from_ymd_opt(2017, 1, 1).unwrap();
    assert_eq!(day(2017, 1, 1), Date::from_days(naive.num_days_from_ce()));
    assert_eq!(day(2017, 3, 1).days() - day(2017, 2, 1).days(), 28);
    assert_eq!(day(2016, 3, 1).days() - day(2016, 2, 1).days(), 29);
}

#[test]
fn days_that_the_calendar_lacks() {
    assert_eq!(Date::from_ymd(2017, 2, 29), None);
    assert_eq!(Date::from_ymd(2017, 13, 1), None);
    assert_eq!(Date::from_ymd(2017, 0, 1), None);
    assert_eq!(Date::from_ymd(2017, 4, 31), None);
    assert_eq!(Date::from_ymd(400_000, 1, 1), None);
}

#[test]
fn the_same_day_of_the_next_year() {
    assert_eq!(day(2017, 1, 1).next_year(), Some(day(2018, 1, 1)));
    assert_eq!(day(2015, 12, 31).next_year(), Some(day(2016, 12, 31)));
    assert_eq!(day(2016, 2, 28).next_year(), Some(day(2017, 2, 28)));
    assert_eq!(next_year(day(1999, 7, 4)), Some(day(2000, 7, 4)));
    // there is no 29 February 2017
    assert_eq!(day(2016, 2, 29).next_year(), None);
    // the calendar ends
    assert_eq!(day(262_142, 6, 1).next_year(), None);
    assert_eq!(Date::from_days(i32::MAX).next_year(), None);
}

#[test]
fn days_later() {
    assert_eq!(day(2017, 1, 1).plus_days(28), Some(day(2017, 1, 29)));
    assert_eq!(day(2017, 1, 1).plus_days(-1), Some(day(2016, 12, 31)));
    assert_eq!(Date::from_days(i32::MAX - 27).plus_days(28), None);
    assert_eq!(Date::from_days(i32::MAX - 28).plus_days(28), Some(Date::from_days(i32::MAX)));
    assert_eq!(next_month(day(2017, 1, 1)), Some(day(2017, 1, 29)));
    assert_eq!(next_biweek(day(2017, 1, 1)), Some(day(2017, 1, 15)));
    assert_eq!(once(day(2017, 1, 1)), None);
}

#[test]
fn order_of_days() {
    assert!(day(2017, 1, 1).not_after(day(2017, 1, 1)));
    assert!(day(2017, 1, 1).not_after(day(2017, 1, 2)));
    assert!(!day(2017, 1, 2).not_after(day(2017, 1, 1)));
    assert!(day(2016, 12, 31) < day(2017, 1, 1));
    assert_eq!(day(2017, 1, 1).sort_key(), 736_330);
}

#[test]
fn once_yields_one_day() {
    let mut stream = DateStream::once(Some(day(2017, 5, 5)), day(2000, 1, 1));
    assert_eq!(stream.next(), Some(day(2017, 5, 5)));
    assert_eq!(stream.next(), None);
    assert_eq!(stream.next(), None);
    let mut stream = DateStream::from(Frequency::Once, None, day(2000, 1, 1));
    assert_eq!(all(&mut stream), vec![day(2000, 1, 1)]);
}

#[test]
fn a_stream_without_a_first_day_starts_today() {
    let today = day(2020, 2, 2);
    assert_eq!(DateStream::yearly(None, today).next(), Some(today));
    assert_eq!(DateStream::monthly(None, today).next(), Some(today));
    assert_eq!(DateStream::biweekly(None, today).next(), Some(today));
    assert_eq!(DateStream::once(None, today).next(), Some(today));
}

#[test]
fn monthly_steps_four_weeks() {
    let mut stream = DateStream::monthly(Some(day(2017, 1, 1)), day(2000, 1, 1));
    assert_eq!(
        take(&mut stream, 4),
        vec![day(2017, 1, 1), day(2017, 1, 29), day(2017, 2, 26), day(2017, 3, 26)]
    );
}

#[test]
fn biweekly_steps_two_weeks() {
    let mut stream = DateStream::from(Frequency::BiWeekly, Some(day(2017, 1, 1)), day(2000, 1, 1));
    assert_eq!(
        take(&mut stream, 3),
        vec![day(2017, 1, 1), day(2017, 1, 15), day(2017, 1, 29)]
    );
}

#[test]
fn yearly_keeps_month_and_day() {
    let mut stream = DateStream::yearly(Some(day(2015, 3, 14)), day(2000, 1, 1));
    assert_eq!(
        take(&mut stream, 3),
        vec![day(2015, 3, 14), day(2016, 3, 14), day(2017, 3, 14)]
    );
    // a stream from a 29 February ends after its first day
    let mut stream = DateStream::yearly(Some(day(2016, 2, 29)), day(2000, 1, 1));
    assert_eq!(all(&mut stream), vec![day(2016, 2, 29)]);
}

#[test]
fn a_stream_ends_where_day_numbers_end() {
    let mut stream = DateStream::monthly(Some(Date::from_days(i32::MAX - 30)), day(2000, 1, 1));
    assert_eq!(
        all(&mut stream),
        vec![Date::from_days(i32::MAX - 30), Date::from_days(i32::MAX - 2)]
    );
}

#[test]
fn a_transfer_rule_unfolds_into_transactions() {
    let transfer = MoneyTransfer {
        amount: Money::from_i32(50),
        from: "a".to_string(),
        to: "b".to_string(),
        frequency: Frequency::Monthly,
        start_date: Some(day(2017, 1, 1)),
        end_date: None,
    };
    let mut stream = RepeatingTransaction::from(transfer, day(2000, 1, 1));
    let expect = |d: Date| {
        Transaction::new(Amount::Money(Money::from_i32(50)), "a".to_string(), "b".to_string(), d)
    };
    assert_eq!(
        take(&mut stream, 3),
        vec![expect(day(2017, 1, 1)), expect(day(2017, 1, 29)), expect(day(2017, 2, 26))]
    );
}

#[test]
fn a_repeating_percentage() {
    let mut stream = RepeatingTransaction::new(
        DateStream::once(None, day(2017, 1, 1)),
        Amount::from_rate(Rate::from_percent(5)),
        "a".to_string(),
        "b".to_string(),
    );
    assert_eq!(
        all(&mut stream),
        vec![Transaction::new(
            Amount::Percent(Rate::new(50_000_000)),
            "a".to_string(),
            "b".to_string(),
            day(2017, 1, 1)
        )]
    );
    assert_eq!(Amount::from_money(Money::from_i32(1)), Amount::Money(Money::from_i32(1)));
}

#[test]
fn the_rate_of_a_period() {
    let year = Rate::from_percent(12);
    assert_eq!(interest_per_period(year, &Frequency::Annually), Rate::new(120_000_000));
    assert_eq!(interest_per_period(year, &Frequency::Monthly), Rate::new(10_000_000));
    assert_eq!(interest_per_period(year, &Frequency::BiWeekly), Rate::new(4_615_384));
    assert_eq!(interest_per_period(year, &Frequency::Once), Rate::new(120_000_000));
    assert_eq!(interest_per_period(Rate::new(-100), &Frequency::BiWeekly), Rate::new(-3));
    assert_eq!(interest_per_period(Rate::new(-25), &Frequency::BiWeekly), Rate::new(0));
    assert_eq!(
        interest_per_period(Rate::new(i64::MIN), &Frequency::Monthly),
        Rate::new(-768_614_336_404_564_650)
    );
    assert_eq!(
        interest_per_period(Rate::new(i64::MAX), &Frequency::Monthly),
        Rate::new(768_614_336_404_564_650)
    );
}

#[test]
fn an_interest_rule_unfolds_into_accruals() {
    let rule = CompoundingInterest {
        account: "savings".to_string(),
        interest_rate: Rate::from_percent(6),
        period: Frequency::Monthly,
        start_date: None,
        end_date: None,
    };
    let mut stream = InterestStream::from(rule, day(2017, 1, 1));
    assert_eq!(
        take(&mut stream, 2),
        vec![
            CompoundedInterest::new(day(2017, 1, 1), Rate::new(5_000_000), "savings".to_string()),
            CompoundedInterest::new(day(2017, 1, 29), Rate::new(5_000_000), "savings".to_string()),
        ]
    );
}

fn numbers(items: &[i64]) -> VecStream<i64> {
    VecStream::new(items.to_vec())
}

#[test]
fn a_vector_streams_in_order() {
    let mut stream = numbers(&[3, 1, 2]);
    assert_eq!(stream.next(), Some(3));
    assert_eq!(stream.next(), Some(1));
    assert_eq!(stream.next(), Some(2));
    assert_eq!(stream.next(), None);
    assert_eq!(stream.next(), None);
}

#[test]
fn a_held_stream_shows_its_next_key() {
    let mut held = OrdIterator::new(numbers(&[4, 9]));
    assert_eq!(held.peek_key(), Some(4));
    assert_eq!(held.peek_key(), Some(4));
    assert_eq!(held.next(), Some(4));
    assert_eq!(held.peek_key(), Some(9));
    assert_eq!(held.next(), Some(9));
    assert_eq!(held.peek_key(), None);
    assert_eq!(held.next(), None);
}

#[test]
fn held_streams_are_ordered_the_other_way_round() {
    let low = OrdIterator::new(numbers(&[1, 100]));
    let high = OrdIterator::new(numbers(&[5]));
    let also_low = OrdIterator::new(numbers(&[1]));
    let done = OrdIterator::new(numbers(&[]));
    assert_eq!(low.partial_cmp(&high), Some(Ordering::Greater));
    assert_eq!(high.partial_cmp(&low), Some(Ordering::Less));
    assert_eq!(low.partial_cmp(&also_low), Some(Ordering::Equal));
    assert_eq!(low.partial_cmp(&done), None);
    assert_eq!(done.partial_cmp(&low), None);
    assert_eq!(done.partial_cmp(&done), None);
    assert!(low.precedes(&high));
    assert!(!high.precedes(&low));
    assert!(!low.precedes(&also_low));
    assert!(!low.precedes(&done));
    assert!(low.eq(&also_low));
    assert!(!low.eq(&high));
    assert!(!low.eq(&done));
    assert!(done.eq(&done));
}

#[test]
fn the_merge_of_sorted_streams_is_sorted() {
    let mut merge = SortedIterator::from_iter(vec![
        numbers(&[1, 4, 7, 10]),
        numbers(&[2, 5, 8]),
        numbers(&[0, 3, 6, 9, 12]),
    ]);
    assert_eq!(all(&mut merge), vec![0, 1, 2, 3, 4, 5, 6, 7, 8, 9, 10, 12]);
    assert_eq!(merge.next(), None);
}

#[test]
fn the_merge_keeps_every_item() {
    let mut merge = SortedIterator::from_iter(vec![
        numbers(&[1, 1, 2]),
        numbers(&[1, 2, 2]),
        numbers(&[]),
        numbers(&[2]),
    ]);
    assert_eq!(all(&mut merge), vec![1, 1, 1, 2, 2, 2, 2]);
}

#[test]
fn the_merge_of_one_stream_is_that_stream() {
    let mut merge = SortedIterator::from_iter(vec![numbers(&[5, 3, 9, 1])]);
    assert_eq!(all(&mut merge), vec![5, 3, 9, 1]);
}

#[test]
fn the_merge_with_an_empty_stream_is_the_other_stream() {
    let mut merge = SortedIterator::from_iter(vec![numbers(&[1, 2, 3]), numbers(&[])]);
    assert_eq!(all(&mut merge), vec![1, 2, 3]);
    let mut merge = SortedIterator::from_iter(vec![numbers(&[]), numbers(&[1, 2, 3])]);
    assert_eq!(all(&mut merge), vec![1, 2, 3]);
}

#[test]
fn the_merge_of_nothing_is_empty() {
    let mut merge = SortedIterator::from_iter(Vec::<VecStream<i64>>::new());
    assert_eq!(merge.next(), None);
    let mut merge = SortedIterator::from_iter(vec![numbers(&[]), numbers(&[])]);
    assert_eq!(merge.next(), None);
}

fn on(d: Date, to: &str) -> Transaction {
    Transaction::new(Amount::Money(Money::from_i32(1)), "from".to_string(), to.to_string(), d)
}

#[test]
fn on_the_same_day_the_first_stream_goes_first() {
    let a = day(2017, 1, 1);
    let b = day(2017, 1, 2);
    let mut merge = SortedIterator::from_iter(vec![
        VecStream::new(vec![on(a, "x1"), on(b, "x2")]),
        VecStream::new(vec![on(a, "y1"), on(a, "y2"), on(b, "y3")]),
    ]);
    assert_eq!(
        all(&mut merge),
        vec![on(a, "x1"), on(a, "y1"), on(a, "y2"), on(b, "x2"), on(b, "y3")]
    );
}

#[test]
fn the_merge_draws_without_end() {
    let today = day(2017, 1, 1);
    let mut merge = SortedIterator::from_iter(vec![
        DateStream::monthly(None, today),
        DateStream::yearly(Some(day(2017, 2, 1)), today),
        DateStream::once(Some(day(2017, 1, 20)), today),
    ]);
    assert_eq!(
        take(&mut merge, 6),
        vec![
            day(2017, 1, 1),
            day(2017, 1, 20),
            day(2017, 1, 29),
            day(2017, 2, 1),
            day(2017, 2, 26),
            day(2017, 3, 26)
        ]
    );
}

#[test]
fn two_sorted_streams_merge_sorted() {
    let mut merge = OrderedIterator::new(numbers(&[1, 5]), numbers(&[2, 3]));
    assert_eq!(all(&mut merge), vec![1, 2, 3, 5]);
    let mut merge = OrderedIterator::new(numbers(&[5]), numbers(&[1, 2]));
    assert_eq!(all(&mut merge), vec![1, 2, 5]);
    let mut merge = OrderedIterator::new(numbers(&[1, 2, 3]), numbers(&[4, 5, 6]));
    assert_eq!(all(&mut merge), vec![1, 2, 3, 4, 5, 6]);
    let mut merge = OrderedIterator::new(numbers(&[1, 3, 5, 7]), numbers(&[2, 4, 6]));
    assert_eq!(all(&mut merge), vec![1, 2, 3, 4, 5, 6, 7]);
    let mut merge = OrderedIterator::new(numbers(&[2, 2]), numbers(&[2, 2, 2]));
    assert_eq!(all(&mut merge), vec![2, 2, 2, 2, 2]);
}

#[test]
fn two_streams_one_empty() {
    let mut merge = OrderedIterator::new(numbers(&[]), numbers(&[3, 1, 2]));
    assert_eq!(all(&mut merge), vec![3, 1, 2]);
    let mut merge = OrderedIterator::new(numbers(&[3, 1, 2]), numbers(&[]));
    assert_eq!(all(&mut merge), vec![3, 1, 2]);
    let mut merge = OrderedIterator::new(numbers(&[]), numbers(&[]));
    assert_eq!(merge.next(), None);
    assert_eq!(merge.next(), None);
}

#[test]
fn two_streams_of_one_item() {
    let mut merge = OrderedIterator::new(numbers(&[1]), numbers(&[2]));
    assert_eq!(all(&mut merge), vec![1, 2]);
    let mut merge = OrderedIterator::new(numbers(&[2]), numbers(&[1]));
    assert_eq!(all(&mut merge), vec![1, 2]);
}

#[test]
fn on_a_tie_the_second_stream_goes_first() {
    let a = day(2017, 1, 1);
    let mut merge = OrderedIterator::new(
        VecStream::new(vec![on(a, "x1"), on(a, "x2")]),
        VecStream::new(vec![on(a, "y1")]),
    );
    assert_eq!(all(&mut merge), vec![on(a, "y1"), on(a, "x1"), on(a, "x2")]);
}

#[test]
fn events_are_keyed_by_their_day() {
    let d = day(2017, 1, 1);
    assert_eq!(on(d, "x").sort_key(), 736_330);
    assert_eq!(
        CompoundedInterest::new(d, Rate::new(1), "x".to_string()).sort_key(),
        736_330
    );
    assert_eq!(7i64.sort_key(), 7);
}

fn monthly_transfer(start: Option<Date>, end: Option<Date>) -> MoneyTransfer {
    MoneyTransfer {
        amount: Money::from_i32(50),
        from: "A".to_string(),
        to: "B".to_string(),
        frequency: Frequency::Monthly,
        start_date: start,
        end_date: end,
    }
}

#[test]
fn a_rule_ends_with_its_last_day_not_after_its_end() {
    let transfer = monthly_transfer(Some(day(2017, 1, 1)), Some(day(2017, 2, 1)));
    let mut stream = RepeatingTransaction::from(transfer, day(2000, 1, 1));
    let expect = |d: Date| {
        Transaction::new(Amount::Money(Money::from_i32(50)), "A".to_string(), "B".to_string(), d)
    };
    assert_eq!(all(&mut stream), vec![expect(day(2017, 1, 1)), expect(day(2017, 1, 29))]);
    assert_eq!(stream.next(), None);
}

#[test]
fn a_rule_that_ends_on_one_of_its_days_has_that_day() {
    let transfer = monthly_transfer(Some(day(2017, 1, 1)), Some(day(2017, 1, 29)));
    let mut stream = RepeatingTransaction::from(transfer, day(2000, 1, 1));
    assert_eq!(all(&mut stream).len(), 2);
    let transfer = monthly_transfer(Some(day(2017, 1, 1)), Some(day(2017, 1, 28)));
    let mut stream = RepeatingTransaction::from(transfer, day(2000, 1, 1));
    assert_eq!(all(&mut stream).len(), 1);
    let transfer = monthly_transfer(Some(day(2017, 1, 1)), Some(day(2017, 1, 1)));
    let mut stream = RepeatingTransaction::from(transfer, day(2000, 1, 1));
    assert_eq!(all(&mut stream).len(), 1);
}

#[test]
fn a_rule_that_ends_before_it_starts_has_no_day() {
    let transfer = monthly_transfer(Some(day(2017, 1, 1)), Some(day(2016, 12, 31)));
    let mut stream = RepeatingTransaction::from(transfer, day(2000, 1, 1));
    assert_eq!(stream.next(), None);
    assert_eq!(stream.next(), None);
    // the first day of a rule without one is today
    let transfer = monthly_transfer(None, Some(day(2016, 12, 31)));
    let mut stream = RepeatingTransaction::from(transfer, day(2017, 1, 1));
    assert_eq!(stream.next(), None);
}

#[test]
fn an_interest_rule_ends_with_its_end() {
    let rule = CompoundingInterest {
        account: "savings".to_string(),
        interest_rate: Rate::from_percent(12),
        period: Frequency::Annually,
        start_date: Some(day(2017, 6, 1)),
        end_date: Some(day(2019, 5, 31)),
    };
    let mut stream = InterestStream::from(rule, day(2000, 1, 1));
    assert_eq!(
        all(&mut stream),
        vec![
            CompoundedInterest::new(day(2017, 6, 1), Rate::from_percent(12), "savings".to_string()),
            CompoundedInterest::new(day(2018, 6, 1), Rate::from_percent(12), "savings".to_string()),
        ]
    );
}

#[test]
fn a_stream_of_days_within_an_end() {
    let today = day(2017, 1, 1);
    let mut stream = DateStream::within(Frequency::BiWeekly, None, Some(day(2017, 2, 1)), today);
    assert_eq!(all(&mut stream), vec![day(2017, 1, 1), day(2017, 1, 15), day(2017, 1, 29)]);
    let mut stream = DateStream::within(Frequency::Once, Some(day(2017, 3, 1)), Some(day(2017, 2, 1)), today);
    assert_eq!(stream.next(), None);
    let mut stream = DateStream::within(Frequency::Monthly, None, None, today);
    assert_eq!(take(&mut stream, 3).len(), 3);
}

#[test]
fn the_year_to_move_to() {
    assert_eq!(Date::following_year(Some(2017)), Some(2018));
    assert_eq!(Date::following_year(Some(-1)), Some(0));
    assert_eq!(Date::following_year(Some(i32::MAX - 1)), Some(i32::MAX));
    assert_eq!(Date::following_year(Some(i32::MAX)), None);
    assert_eq!(Date::following_year(None), None);
}

#[test]
fn only_a_later_day_follows() {
    let d = Date::from_days(100);
    assert_eq!(d.if_later(Some(465)), Some(Date::from_days(465)));
    assert_eq!(d.if_later(Some(101)), Some(Date::from_days(101)));
    assert_eq!(d.if_later(Some(100)), None);
    assert_eq!(d.if_later(Some(-5)), None);
    assert_eq!(d.if_later(None), None);
}

#[test]
fn days_as_text() {
    assert_eq!(day(2017, 1, 1).to_string(), "2017-01-01");
    assert_eq!(day(1, 12, 31).to_string(), "0001-12-31");
    assert_eq!(Date::from_days(i32::MAX).to_string(), "day 2147483647");
    assert_eq!(Date::from_days(i32::MIN).to_string(), "day -2147483648");
    let d = Date::from_days(7);
    assert_eq!(d.text_from(Some("written".to_string())), "written");
    assert_eq!(d.text_from(None), "day 7");
    assert_eq!(Date::from_days(0).text_from(None), "day 0");
    assert_eq!(Date::from_days(-12).text_from(None), "day -12");
}

#[test]
fn events_as_text() {
    let t = Transaction::new(
        Amount::Money(Money::from_i32(50)),
        "A".to_string(),
        "B".to_string(),
        day(2017, 1, 1),
    );
    assert_eq!(t.to_string(), "[A] sending ($50.00) to [B] on {2017-01-01}");
    let t = Transaction::new(
        Amount::Percent(Rate::from_percent(10)),
        "assets:cash".to_string(),
        "x".to_string(),
        day(2017, 12, 31),
    );
    assert_eq!(t.to_string(), "[assets:cash] sending (0.1) to [x] on {2017-12-31}");
    let i = CompoundedInterest::new(day(2017, 1, 29), Rate::new(4_166_666), "savings".to_string());
    assert_eq!(i.to_string(), "0.42% for [savings] on (2017-01-29)");
    assert_eq!(Amount::Money(Money::from_units(-1_500_000)).to_string(), "$-1.50");
    assert_eq!(Amount::Percent(Rate::new(-25_000_000)).to_string(), "-0.025");
}
