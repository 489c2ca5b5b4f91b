use financial_planner::accounts::{Account, Accounts, DerivedAccount, SimpleAccount};
use financial_planner::date::Date;
use financial_planner::errors::ErrorKind;
use financial_planner::expression::Expression;
use financial_planner::history::{pay_interest, History};
use financial_planner::iterators::{Stream, VecStream};
use financial_planner::money::{Money, Rate};
use financial_planner::plan::{
    CompoundingInterest, DateStream, Frequency, MoneyTransfer, Plan, Rule,
};
use financial_planner::transaction::{Amount, CompoundedInterest, Transaction};

fn day(y: i32, m: u32, d: u32) -> Date {
    Date::from_ymd(y, m, d).unwrap()
}

fn s(text: &str) -> String {
    text.to_string()
}

fn simple(units: i32) -> Account {
    Account::Simple(SimpleAccount { amount: Money::from_i32(units) })
}

fn two_accounts(a: i32, b: i32) -> Accounts {
    let mut root = Accounts::root();
    root.create_account(s("A"), simple(a)).unwrap();
    root.create_account(s("B"), simple(b)).unwrap();
    root
}

fn worth(accounts: &Accounts, path: &str) -> Money {
    accounts.eval().unwrap().get(path).unwrap().clone()
}

#[test]
fn a_monthly_transfer_over_four_checkpoints() {
    let plan = Plan {
        accounts: two_accounts(100, 0),
        rules: vec![(
            s("rent"),
            Rule::RepeatingMoney(MoneyTransfer {
                amount: Money::from_i32(50),
                from: s("A"),
                to: s("B"),
                frequency: Frequency::Monthly,
                start_date: Some(day(2017, 1, 1)),
                end_date: None,
            }),
        )],
    };
    assert_eq!(plan.accounts.validate(), Ok(()));
    let checkpoints =
        vec![day(2017, 1, 1), day(2017, 1, 15), day(2017, 1, 30), day(2017, 2, 1)];
    let mut history = plan.history(VecStream::new(checkpoints.clone()), day(2016, 6, 1));
    let expected = [(50, 50), (50, 50), (0, 100), (0, 100)];
    for (checkpoint, (a, b)) in checkpoints.iter().zip(expected.iter()) {
        let (date, snapshot) = history.next().unwrap().unwrap();
        assert_eq!(date, *checkpoint);
        assert_eq!(worth(&snapshot, "A"), Money::from_i32(*a));
        assert_eq!(worth(&snapshot, "B"), Money::from_i32(*b));
    }
    assert_eq!(history.next(), None);
    assert_eq!(history.next(), None);
}

#[test]
fn the_second_transfer_falls_due_four_weeks_after_the_first() {
    let plan = Plan {
        accounts: two_accounts(100, 0),
        rules: vec![(
            s("rent"),
            Rule::RepeatingMoney(MoneyTransfer {
                amount: Money::from_i32(50),
                from: s("A"),
                to: s("B"),
                frequency: Frequency::Monthly,
                start_date: Some(day(2017, 1, 1)),
                end_date: None,
            }),
        )],
    };
    let checkpoints = vec![day(2016, 12, 31), day(2017, 1, 28), day(2017, 1, 29)];
    let mut history = plan.history(VecStream::new(checkpoints), day(2016, 6, 1));
    let (_, first) = history.next().unwrap().unwrap();
    assert_eq!(first, two_accounts(100, 0));
    let (_, second) = history.next().unwrap().unwrap();
    assert_eq!(second, two_accounts(50, 50));
    let (_, third) = history.next().unwrap().unwrap();
    assert_eq!(third, two_accounts(0, 100));
}

#[test]
fn snapshots_stay_as_they_were_handed_out() {
    let transactions = VecStream::new(vec![
        Transaction::new(Amount::Money(Money::from_i32(10)), s("A"), s("B"), Date::from_days(5)),
        Transaction::new(Amount::Money(Money::from_i32(10)), s("A"), s("B"), Date::from_days(15)),
    ]);
    let interest = VecStream::new(Vec::<CompoundedInterest>::new());
    let dates = VecStream::new(vec![Date::from_days(10), Date::from_days(20)]);
    let mut history =
        History::new((Date::from_days(0), two_accounts(100, 0)), transactions, interest, dates);
    let (first_day, first) = history.next().unwrap().unwrap();
    let (second_day, second) = history.next().unwrap().unwrap();
    assert_eq!(first_day, Date::from_days(10));
    assert_eq!(second_day, Date::from_days(20));
    assert_eq!(first, two_accounts(90, 10));
    assert_eq!(second, two_accounts(80, 20));
    assert_eq!(history.next(), None);
}

#[test]
fn several_events_fall_due_by_one_checkpoint() {
    let plan = Plan {
        accounts: two_accounts(1000, 0),
        rules: vec![
            (
                s("weekly"),
                Rule::RepeatingMoney(MoneyTransfer {
                    amount: Money::from_i32(1),
                    from: s("A"),
                    to: s("B"),
                    frequency: Frequency::BiWeekly,
                    start_date: None,
                    end_date: None,
                }),
            ),
            (
                s("once"),
                Rule::RepeatingMoney(MoneyTransfer {
                    amount: Money::from_i32(100),
                    from: s("B"),
                    to: s("C"),
                    frequency: Frequency::Once,
                    start_date: Some(day(2017, 2, 1)),
                    end_date: None,
                }),
            ),
        ],
    };
    let today = day(2017, 1, 1);
    let mut history = plan.history(VecStream::new(vec![day(2017, 3, 1)]), today);
    let (_, snapshot) = history.next().unwrap().unwrap();
    // 1 Jan, 15 Jan, 29 Jan, 12 Feb, 26 Feb
    assert_eq!(worth(&snapshot, "A"), Money::from_i32(995));
    assert_eq!(worth(&snapshot, "B"), Money::from_i32(-95));
    assert_eq!(worth(&snapshot, "C"), Money::from_i32(100));
    assert_eq!(snapshot.sum(), Money::from_i32(1000));
}

#[test]
fn interest_is_paid_on_the_balance_of_the_day() {
    let mut accounts = Accounts::root();
    accounts.create_account(s("savings"), simple(1000)).unwrap();
    let plan = Plan {
        accounts,
        rules: vec![(
            s("interest"),
            Rule::CompoundingInterest(CompoundingInterest {
                account: s("savings"),
                interest_rate: Rate::from_percent(12),
                period: Frequency::Monthly,
                start_date: Some(day(2017, 1, 1)),
                end_date: None,
            }),
        )],
    };
    let checkpoints = vec![day(2017, 1, 1), day(2017, 1, 29), day(2017, 2, 25)];
    let mut history = plan.history(VecStream::new(checkpoints), day(2016, 6, 1));
    let (_, first) = history.next().unwrap().unwrap();
    assert_eq!(worth(&first, "savings"), Money::from_i32(1010));
    assert_eq!(worth(&first, "equity:interest:savings"), Money::from_i32(-10));
    let (_, second) = history.next().unwrap().unwrap();
    assert_eq!(worth(&second, "savings"), Money::from_units(1_020_100_000));
    assert_eq!(worth(&second, "equity:interest:savings"), Money::from_units(-20_100_000));
    let (_, third) = history.next().unwrap().unwrap();
    assert_eq!(third, second);
    assert_eq!(third.sum(), Money::from_i32(1000));
}

#[test]
fn transfers_come_before_interest() {
    let mut accounts = Accounts::root();
    accounts.create_account(s("savings"), simple(0)).unwrap();
    accounts.create_account(s("salary"), simple(1000)).unwrap();
    let plan = Plan {
        accounts,
        rules: vec![
            (
                s("interest"),
                Rule::CompoundingInterest(CompoundingInterest {
                    account: s("savings"),
                    interest_rate: Rate::from_percent(10),
                    period: Frequency::Annually,
                    start_date: None,
                    end_date: None,
                }),
            ),
            (
                s("save"),
                Rule::RepeatingMoney(MoneyTransfer {
                    amount: Money::from_i32(500),
                    from: s("salary"),
                    to: s("savings"),
                    frequency: Frequency::Annually,
                    start_date: None,
                    end_date: None,
                }),
            ),
        ],
    };
    let today = day(2017, 1, 1);
    let mut history = plan.history(VecStream::new(vec![today]), today);
    let (_, snapshot) = history.next().unwrap().unwrap();
    assert_eq!(worth(&snapshot, "savings"), Money::from_i32(550));
    assert_eq!(worth(&snapshot, "salary"), Money::from_i32(500));
}

#[test]
fn interest_on_a_missing_account_is_nothing() {
    let mut accounts = two_accounts(5, 6);
    let interest = CompoundedInterest::new(day(2017, 1, 1), Rate::from_percent(10), s("C"));
    assert_eq!(pay_interest(&mut accounts, interest), Ok(()));
    assert_eq!(worth(&accounts, "A"), Money::from_i32(5));
    assert_eq!(worth(&accounts, "C"), Money::zero());
    assert_eq!(worth(&accounts, "equity:interest:C"), Money::zero());
}

#[test]
fn interest_is_cut_to_whole_millionths() {
    let mut accounts = Accounts::root();
    accounts.create_account(s("x"), Account::Simple(SimpleAccount { amount: Money::from_units(7) })).unwrap();
    let interest = CompoundedInterest::new(day(2017, 1, 1), Rate::from_percent(50), s("x"));
    assert_eq!(pay_interest(&mut accounts, interest), Ok(()));
    assert_eq!(worth(&accounts, "x"), Money::from_units(10));
    assert_eq!(worth(&accounts, "equity:interest:x"), Money::from_units(-3));
}

#[test]
fn a_failing_event_ends_the_simulation() {
    let mut accounts = two_accounts(100, 0);
    accounts
        .create_account(
            s("total"),
            Account::Derived(DerivedAccount { expression: Expression::parse("A + B").unwrap() }),
        )
        .unwrap();
    let plan = Plan {
        accounts,
        rules: vec![
            (
                s("fine"),
                Rule::RepeatingMoney(MoneyTransfer {
                    amount: Money::from_i32(1),
                    from: s("A"),
                    to: s("B"),
                    frequency: Frequency::Monthly,
                    start_date: Some(day(2017, 1, 1)),
                    end_date: None,
                }),
            ),
            (
                s("bad"),
                Rule::RepeatingMoney(MoneyTransfer {
                    amount: Money::from_i32(5),
                    from: s("A"),
                    to: s("total"),
                    frequency: Frequency::Once,
                    start_date: Some(day(2017, 2, 1)),
                    end_date: None,
                }),
            ),
        ],
    };
    let checkpoints = vec![day(2017, 1, 15), day(2017, 2, 15), day(2017, 3, 15)];
    let mut history = plan.history(VecStream::new(checkpoints), day(2016, 6, 1));
    let (_, first) = history.next().unwrap().unwrap();
    assert_eq!(worth(&first, "total"), Money::from_i32(100));
    assert_eq!(worth(&first, "B"), Money::from_i32(1));
    assert_eq!(
        history.next(),
        Some(Err(ErrorKind::InvalidDeposit(s("total"), Money::from_i32(5))))
    );
    assert_eq!(history.next(), None);
    assert_eq!(history.next(), None);
}

#[test]
fn failing_interest_ends_the_simulation() {
    let mut accounts = two_accounts(100, 0);
    accounts
        .create_account(
            s("broken"),
            Account::Derived(DerivedAccount { expression: Expression::parse("gold").unwrap() }),
        )
        .unwrap();
    let transactions = VecStream::new(Vec::<Transaction>::new());
    let interest = VecStream::new(vec![CompoundedInterest::new(
        Date::from_days(1),
        Rate::from_percent(1),
        s("A"),
    )]);
    let dates = VecStream::new(vec![Date::from_days(0), Date::from_days(1), Date::from_days(2)]);
    let mut history = History::new((Date::from_days(0), accounts.clone()), transactions, interest, dates);
    assert_eq!(history.next(), Some(Ok((Date::from_days(0), accounts))));
    assert_eq!(history.next(), Some(Err(ErrorKind::InvalidAccountName(s("gold")))));
    assert_eq!(history.next(), None);
}

#[test]
fn no_checkpoints_no_snapshots() {
    let plan = Plan { accounts: two_accounts(1, 2), rules: vec![] };
    let mut history = plan.history(VecStream::new(Vec::<Date>::new()), day(2017, 1, 1));
    assert_eq!(history.next(), None);
}

#[test]
fn checkpoints_can_be_drawn_from_a_stream_of_days() {
    let plan = Plan { accounts: two_accounts(1, 2), rules: vec![] };
    let today = day(2017, 1, 1);
    let mut years = DateStream::yearly(None, today);
    let mut checkpoints = Vec::new();
    for _ in 0..3 {
        checkpoints.push(years.next().unwrap());
    }
    let mut history = plan.history(VecStream::new(checkpoints), today);
    let mut seen = Vec::new();
    while let Some(step) = history.next() {
        let (date, snapshot) = step.unwrap();
        assert_eq!(snapshot, two_accounts(1, 2));
        seen.push(date);
    }
    assert_eq!(seen, vec![day(2017, 1, 1), day(2018, 1, 1), day(2019, 1, 1)]);
}

#[test]
fn the_merged_rules_come_in_order_of_their_days() {
    let plan = Plan {
        accounts: Accounts::root(),
        rules: vec![
            (
                s("late"),
                Rule::RepeatingMoney(MoneyTransfer {
                    amount: Money::from_i32(2),
                    from: s("A"),
                    to: s("B"),
                    frequency: Frequency::Once,
                    start_date: Some(day(2017, 3, 1)),
                    end_date: None,
                }),
            ),
            (
                s("interest"),
                Rule::CompoundingInterest(CompoundingInterest {
                    account: s("A"),
                    interest_rate: Rate::from_percent(12),
                    period: Frequency::Once,
                    start_date: None,
                    end_date: None,
                }),
            ),
            (
                s("early"),
                Rule::RepeatingMoney(MoneyTransfer {
                    amount: Money::from_i32(1),
                    from: s("A"),
                    to: s("B"),
                    frequency: Frequency::Once,
                    start_date: None,
                    end_date: None,
                }),
            ),
        ],
    };
    let today = day(2017, 1, 1);
    let mut transactions = plan.transactions(today);
    let first = transactions.next().unwrap();
    let second = transactions.next().unwrap();
    assert_eq!(transactions.next(), None);
    assert_eq!((first.amount, first.date), (Amount::Money(Money::from_i32(1)), today));
    assert_eq!((second.amount, second.date), (Amount::Money(Money::from_i32(2)), day(2017, 3, 1)));
    let mut interest = plan.compounding(today);
    assert_eq!(
        interest.next(),
        Some(CompoundedInterest::new(today, Rate::from_percent(12), s("A")))
    );
    assert_eq!(interest.next(), None);
}

#[test]
fn shares_due_on_one_day_are_taken_one_after_the_other() {
    let share = |to: &str| {
        Transaction::new(
            Amount::Percent(Rate::from_percent(10)),
            s("A"),
            s(to),
            Date::from_days(5),
        )
    };
    let transactions = VecStream::new(vec![share("B"), share("C")]);
    let interest = VecStream::new(Vec::<CompoundedInterest>::new());
    let dates = VecStream::new(vec![Date::from_days(5)]);
    let mut history =
        History::new((Date::from_days(0), two_accounts(200, 0)), transactions, interest, dates);
    let (_, snapshot) = history.next().unwrap().unwrap();
    // the first share is 10% of 200, the second 10% of the 180 that are left
    assert_eq!(worth(&snapshot, "A"), Money::from_i32(162));
    assert_eq!(worth(&snapshot, "B"), Money::from_i32(20));
    assert_eq!(worth(&snapshot, "C"), Money::from_i32(18));
}

#[test]
fn an_event_after_the_checkpoint_waits() {
    let transactions = VecStream::new(vec![Transaction::new(
        Amount::Money(Money::from_i32(10)),
        s("A"),
        s("B"),
        Date::from_days(6),
    )]);
    let interest = VecStream::new(vec![CompoundedInterest::new(
        Date::from_days(6),
        Rate::from_percent(50),
        s("A"),
    )]);
    let dates = VecStream::new(vec![Date::from_days(5), Date::from_days(6)]);
    let mut history =
        History::new((Date::from_days(0), two_accounts(100, 0)), transactions, interest, dates);
    let (_, first) = history.next().unwrap().unwrap();
    assert_eq!(first, two_accounts(100, 0));
    let (_, second) = history.next().unwrap().unwrap();
    assert_eq!(worth(&second, "A"), Money::from_i32(135));
    assert_eq!(worth(&second, "B"), Money::from_i32(10));
    assert_eq!(worth(&second, "equity:interest:A"), Money::from_i32(-45));
}

#[test]
fn a_rule_with_an_end_stops_in_the_simulation() {
    let plan = Plan {
        accounts: two_accounts(100, 0),
        rules: vec![(
            s("rent"),
            Rule::RepeatingMoney(MoneyTransfer {
                amount: Money::from_i32(10),
                from: s("A"),
                to: s("B"),
                frequency: Frequency::Monthly,
                start_date: Some(day(2017, 1, 1)),
                end_date: Some(day(2017, 2, 1)),
            }),
        )],
    };
    let checkpoints = vec![day(2017, 1, 31), day(2017, 12, 31)];
    let mut history = plan.history(VecStream::new(checkpoints), day(2016, 6, 1));
    let (_, first) = history.next().unwrap().unwrap();
    assert_eq!(first, two_accounts(80, 20));
    let (_, second) = history.next().unwrap().unwrap();
    assert_eq!(second, two_accounts(80, 20));
}
