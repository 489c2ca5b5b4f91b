use financial_planner::accounts::{
    evaluate, has_colon, join_path, split_path, Account, Accounts, Balances, DerivedAccount,
    SimpleAccount,
};
use financial_planner::date::Date;
use financial_planner::errors::ErrorKind;
use financial_planner::expression::{Expr, Expression};
use financial_planner::money::{Money, Rate};
use financial_planner::transaction::{Amount, Transaction};

fn simple(units: i32) -> Account {
    Account::Simple(SimpleAccount { amount: Money::from_i32(units) })
}

fn derived(text: &str) -> Account {
    Account::Derived(DerivedAccount { expression: Expression::parse(text).unwrap() })
}

fn s(text: &str) -> String {
    text.to_string()
}

/// assets: { cash: 100, bank: 250 }, debts: { card: -40 }, total: assets + debts
fn sample() -> Accounts {
    let mut root = Accounts::root();
    root.create_account(s("assets:cash"), simple(100)).unwrap();
    root.create_account(s("assets:bank"), simple(250)).unwrap();
    root.create_account(s("debts:card"), simple(-40)).unwrap();
    root.create_account(s("total"), derived("assets + debts")).unwrap();
    root
}

fn balance(root: &Accounts, path: &str) -> Money {
    root.balance(path).unwrap()
}

#[test]
fn an_empty_root() {
    let root = Accounts::root();
    assert_eq!(root, Accounts::Tree(vec![]));
    assert_eq!(root.paths(), Vec::<String>::new());
    assert_eq!(root.sum(), Money::zero());
    assert_eq!(root.eval(), Ok(Balances { entries: vec![] }));
    assert_eq!(root.validate(), Ok(()));
}

#[test]
fn creating_builds_the_nodes_on_the_way() {
    let mut root = Accounts::root();
    assert_eq!(root.create_account(s("a:b:c"), simple(1)), Ok(()));
    assert_eq!(
        root,
        Accounts::Tree(vec![(
            s("a"),
            Accounts::Tree(vec![(
                s("b"),
                Accounts::Tree(vec![(s("c"), Accounts::Leaf(simple(1)))])
            )])
        )])
    );
    assert_eq!(root.create_account(s("a:d"), simple(2)), Ok(()));
    assert_eq!(root.paths(), vec![s("a:b:c"), s("a:d")]);
}

#[test]
fn creating_twice_fails() {
    let mut root = sample();
    let before = root.clone();
    assert_eq!(
        root.create_account(s("assets:cash"), simple(1)),
        Err(ErrorKind::AlreadyExists(s("cash")))
    );
    assert_eq!(root.create_account(s("assets"), simple(1)), Err(ErrorKind::AlreadyExists(s("assets"))));
    assert_eq!(root, before);
}

#[test]
fn creating_below_a_leaf_fails() {
    let mut root = sample();
    let before = root.clone();
    assert_eq!(
        root.create_account(s("assets:cash:coins"), simple(1)),
        Err(ErrorKind::InvalidAccountName(s("coins")))
    );
    assert_eq!(root, before);
}

#[test]
fn creating_exactly_at_a_leaf_changes_nothing() {
    let mut root = sample();
    let before = root.clone();
    assert_eq!(root.create_account(s("assets:cash:"), simple(999)), Ok(()));
    assert_eq!(root, before);
}

#[test]
fn get_follows_the_path() {
    let root = sample();
    assert_eq!(root.get("assets:cash"), Ok(&Accounts::Leaf(simple(100))));
    assert_eq!(root.get("debts:card").unwrap().leaf(), Ok(&simple(-40)));
    match root.get("assets") {
        Ok(Accounts::Tree(children)) => assert_eq!(children.len(), 2),
        other => panic!("assets is a tree, got {:?}", other),
    }
    // the empty rest names the leaf itself
    assert_eq!(root.get("assets:cash:"), Ok(&Accounts::Leaf(simple(100))));
}

#[test]
fn get_names_the_part_that_failed() {
    let root = sample();
    assert_eq!(root.get("nothing"), Err(ErrorKind::InvalidAccountName(s("nothing"))));
    assert_eq!(root.get("assets:gold"), Err(ErrorKind::InvalidAccountName(s("gold"))));
    assert_eq!(root.get("none:gold"), Err(ErrorKind::InvalidAccountName(s("none:gold"))));
    assert_eq!(
        root.get("assets:cash:coins:old"),
        Err(ErrorKind::InvalidAccountName(s("coins:old")))
    );
    assert_eq!(root.get(""), Err(ErrorKind::InvalidAccountName(s(""))));
    assert_eq!(Accounts::Leaf(simple(1)).get(""), Ok(&Accounts::Leaf(simple(1))));
    assert_eq!(
        Accounts::Leaf(simple(1)).get("x"),
        Err(ErrorKind::InvalidAccountName(s("x")))
    );
}

#[test]
fn a_tree_is_no_leaf() {
    assert_eq!(Accounts::root().leaf(), Err(ErrorKind::UnwrapNode));
    assert_eq!(Accounts::Leaf(simple(3)).leaf(), Ok(&simple(3)));
}

#[test]
fn the_amount_of_an_account() {
    assert_eq!(simple(12).amount(), Money::from_i32(12));
    assert_eq!(derived("a").amount(), Money::zero());
}

#[test]
fn sum_counts_stored_balances_only() {
    let root = sample();
    assert_eq!(root.sum(), Money::from_i32(310));
    assert_eq!(root.get("assets").unwrap().sum(), Money::from_i32(350));
    assert_eq!(root.get("total").unwrap().sum(), Money::zero());
}

#[test]
fn paths_lists_every_leaf_once() {
    let root = sample();
    assert_eq!(
        root.paths(),
        vec![s("assets:cash"), s("assets:bank"), s("debts:card"), s("total")]
    );
    assert_eq!(root.get_account_names(), root.paths());
    assert_eq!(Accounts::Leaf(simple(1)).paths(), vec![s("")]);
}

#[test]
fn eval_lists_what_every_account_is_worth() {
    let root = sample();
    let values = root.eval().unwrap();
    assert_eq!(
        values,
        Balances {
            entries: vec![
                (s("assets:cash"), Money::from_i32(100)),
                (s("assets:bank"), Money::from_i32(250)),
                (s("debts:card"), Money::from_i32(-40)),
                (s("total"), Money::from_i32(310)),
            ]
        }
    );
    assert_eq!(values.get("assets:bank"), Some(&Money::from_i32(250)));
    assert_eq!(values.get("assets"), None);
}

#[test]
fn eval_fails_where_a_formula_names_no_account() {
    let mut root = sample();
    root.create_account(s("broken"), derived("assets:gold")).unwrap();
    assert_eq!(root.eval(), Err(ErrorKind::InvalidAccountName(s("gold"))));
    assert_eq!(root.balance("broken"), Err(ErrorKind::InvalidAccountName(s("gold"))));
}

#[test]
fn eval_fails_where_a_path_leads_to_a_tree() {
    // the leaf named "a:b" is listed under a path that leads into the tree "a"
    let root = Accounts::Tree(vec![
        (s("a:b"), Accounts::Leaf(simple(1))),
        (s("a"), Accounts::Tree(vec![(s("b"), Accounts::Tree(vec![]))])),
    ]);
    assert_eq!(root.paths(), vec![s("a:b")]);
    assert_eq!(root.eval(), Err(ErrorKind::UnwrapNode));
    assert_eq!(root.balance("a"), Err(ErrorKind::UnwrapNode));
}

#[test]
fn the_sum_of_simple_accounts_is_the_sum_of_their_values() {
    let mut root = Accounts::root();
    root.create_account(s("a:x"), simple(5)).unwrap();
    root.create_account(s("a:y:z"), simple(7)).unwrap();
    root.create_account(s("b"), simple(-2)).unwrap();
    root.create_account(s("c:d"), simple(30)).unwrap();
    let mut sum = Money::zero();
    for (_, value) in root.eval().unwrap().entries {
        sum.add_assign(value);
    }
    assert_eq!(sum, Money::from_i32(40));
    assert_eq!(root.sum(), Money::from_i32(40));
}

#[test]
fn deposit_adds_to_a_simple_account() {
    let mut root = sample();
    assert_eq!(root.deposit(s("assets:cash"), Money::from_i32(11)), Ok(()));
    assert_eq!(balance(&root, "assets:cash"), Money::from_i32(111));
    assert_eq!(balance(&root, "assets:bank"), Money::from_i32(250));
    assert_eq!(root.sum(), Money::from_i32(321));
}

#[test]
fn deposit_then_withdraw_restores_the_tree() {
    let mut root = sample();
    let before = root.clone();
    root.deposit(s("assets:bank"), Money::from_units(123_456_789)).unwrap();
    assert_eq!(balance(&root, "assets:bank"), Money::from_units(373_456_789));
    root.withdraw(s("assets:bank"), Money::from_units(123_456_789)).unwrap();
    assert_eq!(root, before);
}

#[test]
fn withdraw_takes_from_a_simple_account() {
    let mut root = sample();
    assert_eq!(root.withdraw(s("debts:card"), Money::from_i32(10)), Ok(()));
    assert_eq!(balance(&root, "debts:card"), Money::from_i32(-50));
}

#[test]
fn deposit_to_a_derived_account_fails() {
    let mut root = sample();
    let before = root.clone();
    assert_eq!(
        root.deposit(s("total"), Money::from_i32(5)),
        Err(ErrorKind::InvalidDeposit(s("total"), Money::from_i32(5)))
    );
    assert_eq!(
        root.withdraw(s("total"), Money::from_i32(5)),
        Err(ErrorKind::InvalidDeposit(s("total"), Money::from_i32(-5)))
    );
    assert_eq!(root, before);
}

#[test]
fn deposit_to_a_missing_account_is_dropped() {
    let mut root = sample();
    let before = root.clone();
    assert_eq!(root.deposit(s("nothing"), Money::from_i32(5)), Ok(()));
    assert_eq!(root, before);
    // nodes on the way are created, the account is not
    assert_eq!(root.deposit(s("x:y"), Money::from_i32(5)), Ok(()));
    assert_eq!(root.get("x"), Ok(&Accounts::Tree(vec![])));
    assert_eq!(root.sum(), before.sum());
}

#[test]
fn deposit_into_a_leaf_drops_the_rest_of_the_path() {
    let mut root = sample();
    assert_eq!(root.deposit(s("assets:cash:coins"), Money::from_i32(1)), Ok(()));
    assert_eq!(balance(&root, "assets:cash"), Money::from_i32(101));
}

#[test]
fn validate_finds_a_colon_in_a_name() {
    assert_eq!(sample().validate(), Ok(()));
    let bad = Accounts::Tree(vec![
        (s("fine"), Accounts::Leaf(simple(1))),
        (
            s("outer"),
            Accounts::Tree(vec![
                (s("in:ner"), Accounts::Leaf(simple(2))),
                (s("al:so"), Accounts::Leaf(simple(3))),
            ]),
        ),
        (s("la:te"), Accounts::Leaf(simple(4))),
    ]);
    assert_eq!(bad.validate(), Err(ErrorKind::InvalidAccountName(s("in:ner"))));
    assert_eq!(Accounts::Leaf(simple(1)).validate(), Ok(()));
}

#[test]
fn formulas_sum_whole_subtrees() {
    let root = sample();
    let parse = |t: &str| Expression::parse(t).unwrap();
    assert_eq!(evaluate(&parse("assets"), &root), Ok(Money::from_i32(350)));
    assert_eq!(evaluate(&parse("assets:cash"), &root), Ok(Money::from_i32(100)));
    assert_eq!(evaluate(&parse("assets - debts"), &root), Ok(Money::from_i32(390)));
    assert_eq!(
        evaluate(&parse("assets:cash - assets:bank + debts:card"), &root),
        Ok(Money::from_i32(100 - (250 - 40)))
    );
    assert_eq!(
        evaluate(&parse("assets + gold"), &root),
        Err(ErrorKind::InvalidAccountName(s("gold")))
    );
    assert_eq!(
        evaluate(&Expr::Id(s("gold:bars")), &root),
        Err(ErrorKind::InvalidAccountName(s("gold:bars")))
    );
}

#[test]
fn a_derived_sum_follows_deposits() {
    let mut root = Accounts::root();
    root.create_account(s("assets:cash"), simple(10)).unwrap();
    root.create_account(s("assets:bank"), simple(20)).unwrap();
    root.create_account(s("total"), derived("assets:cash + assets:bank")).unwrap();
    assert_eq!(balance(&root, "total"), Money::from_i32(30));
    root.deposit(s("assets:cash"), Money::from_i32(5)).unwrap();
    assert_eq!(balance(&root, "total"), Money::from_i32(35));
    root.deposit(s("assets:bank"), Money::from_i32(7)).unwrap();
    root.deposit(s("assets:cash"), Money::from_i32(-1)).unwrap();
    assert_eq!(balance(&root, "total"), Money::from_i32(41));
    assert_eq!(root.eval().unwrap().get("total"), Some(&Money::from_i32(41)));
}

fn transfer(amount: Amount, from: &str, to: &str) -> Transaction {
    Transaction::new(amount, s(from), s(to), Date::from_days(1))
}

#[test]
fn apply_moves_money() {
    let mut root = sample();
    let t = transfer(Amount::Money(Money::from_i32(30)), "assets:cash", "assets:bank");
    assert_eq!(root.apply(t), Ok(()));
    assert_eq!(balance(&root, "assets:cash"), Money::from_i32(70));
    assert_eq!(balance(&root, "assets:bank"), Money::from_i32(280));
    assert_eq!(root.sum(), Money::from_i32(310));
    assert_eq!(root.get("assets").unwrap().sum(), Money::from_i32(350));
}

#[test]
fn apply_opens_missing_accounts() {
    let mut root = sample();
    let t = transfer(Amount::Money(Money::from_i32(30)), "income:job", "assets:cash");
    assert_eq!(root.apply(t), Ok(()));
    assert_eq!(balance(&root, "income:job"), Money::from_i32(-30));
    assert_eq!(balance(&root, "assets:cash"), Money::from_i32(130));
    assert_eq!(root.sum(), Money::from_i32(310));
}

#[test]
fn apply_takes_a_share_of_the_balance_before() {
    let mut root = Accounts::root();
    root.create_account(s("a"), simple(200)).unwrap();
    root.create_account(s("b"), simple(0)).unwrap();
    let t = transfer(Amount::Percent(Rate::from_percent(10)), "a", "b");
    assert_eq!(t.eval_from_amount(&root), Ok(Money::from_i32(20)));
    assert_eq!(root.apply(t), Ok(()));
    assert_eq!(balance(&root, "a"), Money::from_i32(180));
    assert_eq!(balance(&root, "b"), Money::from_i32(20));
    // the next share is taken of what is left
    let t = transfer(Amount::Percent(Rate::from_percent(10)), "a", "b");
    assert_eq!(root.apply(t), Ok(()));
    assert_eq!(balance(&root, "a"), Money::from_i32(162));
    assert_eq!(balance(&root, "b"), Money::from_i32(38));
}

#[test]
fn a_share_of_a_missing_account_is_a_share_of_nothing() {
    let mut root = Accounts::root();
    let t = transfer(Amount::Percent(Rate::from_percent(10)), "a", "b");
    assert_eq!(root.apply(t), Ok(()));
    assert_eq!(balance(&root, "a"), Money::zero());
    assert_eq!(balance(&root, "b"), Money::zero());
}

#[test]
fn a_share_of_an_inner_node_fails() {
    let root = sample();
    assert_eq!(
        Amount::Percent(Rate::from_percent(10)).eval(&root, "assets"),
        Err(ErrorKind::InvalidAccountName(s("assets")))
    );
    assert_eq!(
        Amount::Money(Money::from_i32(3)).eval(&root, "assets"),
        Ok(Money::from_i32(3))
    );
}

#[test]
fn apply_that_fails_changes_nothing() {
    let mut root = sample();
    let before = root.clone();
    // the deposit into the derived account fails after the withdrawal
    let t = transfer(Amount::Money(Money::from_i32(30)), "fresh:account", "total");
    assert_eq!(
        root.apply(t),
        Err(ErrorKind::InvalidDeposit(s("total"), Money::from_i32(30)))
    );
    assert_eq!(root, before);
    // an account that cannot be evaluated stops every transaction
    root.create_account(s("broken"), derived("gold")).unwrap();
    let before = root.clone();
    let t = transfer(Amount::Money(Money::from_i32(30)), "assets:cash", "assets:bank");
    assert_eq!(root.apply(t), Err(ErrorKind::InvalidAccountName(s("gold"))));
    assert_eq!(root, before);
}

#[test]
fn apply_below_a_leaf_fails() {
    let mut root = sample();
    let before = root.clone();
    let t = transfer(Amount::Money(Money::from_i32(1)), "assets:cash:coins", "assets:bank");
    assert_eq!(root.apply(t), Err(ErrorKind::InvalidAccountName(s("coins"))));
    assert_eq!(root, before);
}

#[test]
fn paths_are_split_at_the_first_colon() {
    assert_eq!(split_path("a:b:c"), Some((s("a"), s("b:c"))));
    assert_eq!(split_path(":x"), Some((s(""), s("x"))));
    assert_eq!(split_path("a:"), Some((s("a"), s(""))));
    assert_eq!(split_path("abc"), None);
    assert_eq!(split_path(""), None);
    assert!(has_colon("a:b"));
    assert!(!has_colon("ab"));
}

#[test]
fn paths_are_joined_with_a_colon() {
    assert_eq!(join_path("", &s("a")), "a");
    assert_eq!(join_path("a", &s("b")), "a:b");
    assert_eq!(join_path("a:b", &s("")), "a:b:");
}

#[test]
fn a_copy_of_a_tree_is_equal() {
    let root = sample();
    assert_eq!(root.clone(), root);
}
