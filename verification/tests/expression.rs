use financial_planner::errors::ErrorKind;
use financial_planner::expression::{chars_of, Expr, Expression};

fn id(name: &str) -> Expr {
    Expr::Id(name.to_string())
}

fn add(l: Expr, r: Expr) -> Expr {
    Expr::Add(Box::new(l), Box::new(r))
}

fn sub(l: Expr, r: Expr) -> Expr {
    Expr::Sub(Box::new(l), Box::new(r))
}

#[test]
fn a_path_is_an_expression() {
    assert_eq!(Expression::parse("assets"), Ok(id("assets")));
    assert_eq!(Expression::parse("assets:cash"), Ok(id("assets:cash")));
    assert_eq!(Expression::parse(":"), Ok(id(":")));
}

#[test]
fn sums_and_differences() {
    assert_eq!(Expression::parse("a + b"), Ok(add(id("a"), id("b"))));
    assert_eq!(Expression::parse("a - b"), Ok(sub(id("a"), id("b"))));
    assert_eq!(Expression::parse("a+b"), Ok(add(id("a"), id("b"))));
    assert_eq!(
        Expression::parse("assets:cash + assets:bank"),
        Ok(add(id("assets:cash"), id("assets:bank")))
    );
}

#[test]
fn operators_group_to_the_right() {
    assert_eq!(
        Expression::parse("a - b + c"),
        Ok(sub(id("a"), add(id("b"), id("c"))))
    );
    assert_eq!(
        Expression::parse("a + b - c - d"),
        Ok(add(id("a"), sub(id("b"), sub(id("c"), id("d")))))
    );
}

#[test]
fn white_space_follows_paths_and_operators() {
    assert_eq!(Expression::parse("a \t+\n  b  "), Ok(add(id("a"), id("b"))));
    assert_eq!(Expression::parse("a   "), Ok(id("a")));
}

#[test]
fn an_operator_needs_an_expression_behind_it() {
    let fails = |text: &str| assert_eq!(Expression::parse(text), Err(ErrorKind::Parse(text.to_string())));
    fails("assets -");
    fails("assets +");
    fails("a + b + ");
    fails("a + + b");
    fails("a + 1");
}

#[test]
fn nothing_may_follow_the_expression() {
    let fails = |text: &str| assert_eq!(Expression::parse(text), Err(ErrorKind::Parse(text.to_string())));
    fails("a + b )");
    fails("a1");
    fails("a b");
    fails("a * b");
    fails("a, b");
    fails("assets.cash");
}

#[test]
fn letters_of_any_alphabet() {
    assert_eq!(Expression::parse("épargne + ζ"), Ok(add(id("épargne"), id("ζ"))));
}

#[test]
fn text_that_starts_with_no_path_fails() {
    assert_eq!(Expression::parse(""), Err(ErrorKind::Parse("".to_string())));
    assert_eq!(Expression::parse(" a"), Err(ErrorKind::Parse(" a".to_string())));
    assert_eq!(Expression::parse("+ a"), Err(ErrorKind::Parse("+ a".to_string())));
    assert_eq!(Expression::parse("1"), Err(ErrorKind::Parse("1".to_string())));
    assert_eq!(Expression::parse("_a"), Err(ErrorKind::Parse("_a".to_string())));
}

#[test]
fn text_of_an_expression() {
    assert_eq!(id("assets:cash").to_string(), "assets:cash");
    assert_eq!(add(id("a"), id("b")).to_string(), "a + b");
    assert_eq!(sub(id("a"), add(id("b"), id("c"))).to_string(), "a - b + c");
}

#[test]
fn text_parses_back() {
    let e = sub(id("a:b"), add(id("c"), sub(id("d"), id("e:f:g"))));
    assert_eq!(Expression::parse(&e.to_string()), Ok(e));
}

#[test]
fn characters_of_a_text() {
    assert_eq!(chars_of("aé:"), vec!['a', 'é', ':']);
    assert_eq!(chars_of(""), Vec::<char>::new());
}

#[test]
fn a_copy_of_an_expression_is_equal() {
    let e = add(id("a"), sub(id("b"), id("c")));
    assert_eq!(e.clone(), e);
}
