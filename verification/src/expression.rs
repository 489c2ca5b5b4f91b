//! Expressions over account paths: `a`, `a + b`, `a - b + c`.

use crate::errors::ErrorKind;
use vstd::prelude::*;

verus! {

/// Whether `char::is_alphabetic` holds of `c`.
pub uninterp spec fn is_alphabetic(c: char) -> bool;

/// Whether `char::is_whitespace` holds of `c`.
pub uninterp spec fn is_whitespace(c: char) -> bool;

/// `char::is_alphabetic` tells whether the character has Unicode's `Alphabetic`
/// property; its result is a function of the character alone.
pub assume_specification[ char::is_alphabetic ](c: char) -> (b: bool)
    ensures
        b == is_alphabetic(c),
;

/// `char::is_whitespace` tells whether the character has Unicode's `White_Space`
/// property; its result is a function of the character alone.
pub assume_specification[ char::is_whitespace ](c: char) -> (b: bool)
    ensures
        b == is_whitespace(c),
;

/// An expression over account paths.
#[derive(Debug, PartialEq, Eq)]
pub enum Expr {
    Id(String),
    Add(Box<Expr>, Box<Expr>),
    Sub(Box<Expr>, Box<Expr>),
}

/// An expression with its paths as sequences of characters.
pub enum ExprView {
    Id(Seq<char>),
    Add(Box<ExprView>, Box<ExprView>),
    Sub(Box<ExprView>, Box<ExprView>),
}

/// The model of an expression.
pub open spec fn expr_view(e: Expr) -> ExprView
    decreases e,
{
    match e {
        Expr::Id(name) => ExprView::Id(name@),
        Expr::Add(l, r) => ExprView::Add(Box::new(expr_view(*l)), Box::new(expr_view(*r))),
        Expr::Sub(l, r) => ExprView::Sub(Box::new(expr_view(*l)), Box::new(expr_view(*r))),
    }
}

impl View for Expr {
    type V = ExprView;

    open spec fn view(&self) -> ExprView {
        expr_view(*self)
    }
}

impl Clone for Expr {
    fn clone(&self) -> (copy: Expr)
        ensures
            copy@ == self@,
        decreases self,
    {
        match self {
            Expr::Id(name) => Expr::Id(name.clone()),
            Expr::Add(l, r) => Expr::Add(Box::new((**l).clone()), Box::new((**r).clone())),
            Expr::Sub(l, r) => Expr::Sub(Box::new((**l).clone()), Box::new((**r).clone())),
        }
    }
}

/// A character that may stand in an account path: a letter or `:`.
pub open spec fn is_id_char(c: char) -> bool {
    is_alphabetic(c) || c == ':'
}

/// Where the run of path characters that starts at `from` ends.
pub open spec fn id_end(s: Seq<char>, from: int) -> int
    decreases s.len() - from,
{
    if 0 <= from < s.len() && is_id_char(s[from]) {
        id_end(s, from + 1)
    } else {
        from
    }
}

/// Where the run of white space that starts at `from` ends.
pub open spec fn spaces_end(s: Seq<char>, from: int) -> int
    decreases s.len() - from,
{
    if 0 <= from < s.len() && is_whitespace(s[from]) {
        spaces_end(s, from + 1)
    } else {
        from
    }
}

/// A run of path characters ends within the text, not before its start.
pub proof fn lemma_id_end_bounds(s: Seq<char>, from: int)
    requires
        0 <= from <= s.len(),
    ensures
        from <= id_end(s, from) <= s.len(),
    decreases s.len() - from,
{
    if from < s.len() && is_id_char(s[from]) {
        lemma_id_end_bounds(s, from + 1);
    }
}

/// A run of white space ends within the text, not before its start.
pub proof fn lemma_spaces_end_bounds(s: Seq<char>, from: int)
    requires
        0 <= from <= s.len(),
    ensures
        from <= spaces_end(s, from) <= s.len(),
    decreases s.len() - from,
{
    if from < s.len() && is_whitespace(s[from]) {
        lemma_spaces_end_bounds(s, from + 1);
    }
}

/// The grammar, read from position `from` of `s` to the end of `s`:
///
/// ```text
/// expr := id op expr | id        op := '+' | '-'
/// id   := (letter | ':')+
/// ```
///
/// White space may follow an `id` and an operator. The result is the
/// expression that the text from `from` on is, or `None` where that text is no
/// expression: where no `id` starts at `from`, where anything but an operator
/// follows an `id`, or where no expression follows an operator.
pub open spec fn parse_expr(s: Seq<char>, from: int) -> Option<ExprView>
    decreases s.len() - from,
{
    if 0 <= from <= s.len() {
        let end = id_end(s, from);
        if end == from {
            None
        } else {
            let name = ExprView::Id(s.subrange(from, end));
            let op = spaces_end(s, end);
            if op >= s.len() {
                Some(name)
            } else if s[op] == '+' || s[op] == '-' {
                let start = spaces_end(s, op + 1);
                proof {
                    lemma_id_end_bounds(s, from);
                    lemma_spaces_end_bounds(s, end);
                    lemma_spaces_end_bounds(s, op + 1);
                }
                match parse_expr(s, start) {
                    Some(right) => Some(
                        if s[op] == '+' {
                            ExprView::Add(Box::new(name), Box::new(right))
                        } else {
                            ExprView::Sub(Box::new(name), Box::new(right))
                        },
                    ),
                    None => None,
                }
            } else {
                None
            }
        }
    } else {
        None
    }
}

/// The expression that the whole text is, if it is one.
pub open spec fn parsed(s: Seq<char>) -> Option<ExprView> {
    parse_expr(s, 0)
}

/// The text of an expression: operands and operators, one space between them.
pub open spec fn expr_text(e: ExprView) -> Seq<char>
    decreases e,
{
    match e {
        ExprView::Id(name) => name,
        ExprView::Add(l, r) => expr_text(*l) + seq![' ', '+', ' '] + expr_text(*r),
        ExprView::Sub(l, r) => expr_text(*l) + seq![' ', '-', ' '] + expr_text(*r),
    }
}

/// The characters of a text.
pub fn chars_of(text: &str) -> (chars: Vec<char>)
    ensures
        chars@ == text@,
{
    let mut chars: Vec<char> = Vec::new();
    for c in it: text.chars()
        invariant
            it.seq() == text@,
            chars@ == text@.take(it.index() as int),
    {
        proof {
            assert(text@.take(it.index() as int).push(c) =~= text@.take(it.index() + 1));
        }
        chars.push(c);
    }
    proof {
        assert(text@.take(text@.len() as int) =~= text@);
    }
    chars
}

impl Expr {
    /// The expression as text, as `Expression::parse` reads it.
    pub fn to_string(&self) -> (text: String)
        ensures
            text@ == expr_text(self@),
        decreases self,
    {
        match self {
            Expr::Id(name) => name.clone(),
            Expr::Add(l, r) => {
                let mut text = l.to_string();
                proof {
                    reveal_strlit(" + ");
                    assert(" + "@ =~= seq![' ', '+', ' ']);
                }
                text.append(" + ");
                let right = r.to_string();
                text.append(right.as_str());
                text
            },
            Expr::Sub(l, r) => {
                let mut text = l.to_string();
                proof {
                    reveal_strlit(" - ");
                    assert(" - "@ =~= seq![' ', '-', ' ']);
                }
                text.append(" - ");
                let right = r.to_string();
                text.append(right.as_str());
                text
            },
        }
    }
}

/// The parser of expressions.
pub struct Expression;

impl Expression {
    /// Reads a path: the run of letters and `:` from `from` on, and the white
    /// space behind it. Returns where the path and where the white space ends.
    fn id(chars: &Vec<char>, from: usize) -> (ends: (usize, usize))
        requires
            from <= chars@.len(),
        ensures
            ends.0 == id_end(chars@, from as int),
            ends.1 == spaces_end(chars@, ends.0 as int),
            from <= ends.0 <= ends.1 <= chars@.len(),
    {
        let mut end = from;
        while end < chars.len() && (chars[end].is_alphabetic() || chars[end] == ':')
            invariant
                from <= end <= chars@.len(),
                id_end(chars@, from as int) == id_end(chars@, end as int),
            decreases chars@.len() - end,
        {
            end = end + 1;
        }
        let stop = Expression::spaces(chars, end);
        (end, stop)
    }

    /// Skips white space from `from` on.
    fn spaces(chars: &Vec<char>, from: usize) -> (end: usize)
        requires
            from <= chars@.len(),
        ensures
            end == spaces_end(chars@, from as int),
            from <= end <= chars@.len(),
    {
        let mut end = from;
        while end < chars.len() && chars[end].is_whitespace()
            invariant
                from <= end <= chars@.len(),
                spaces_end(chars@, from as int) == spaces_end(chars@, end as int),
            decreases chars@.len() - end,
        {
            end = end + 1;
        }
        end
    }

    /// Reads the text from position `from` on as one expression.
    fn expr(text: &str, chars: &Vec<char>, from: usize) -> (r: Option<Expr>)
        requires
            chars@ == text@,
            from <= chars@.len(),
        ensures
            match r {
                Some(e) => parse_expr(chars@, from as int) == Some(e@),
                None => parse_expr(chars@, from as int) is None,
            },
        decreases chars@.len() - from,
    {
        let (end, op) = Expression::id(chars, from);
        if end == from {
            return None;
        }
        let name = Expr::Id(text.substring_char(from, end).to_owned());
        assert(name@ == ExprView::Id(chars@.subrange(from as int, end as int)));
        if op >= chars.len() {
            Some(name)
        } else if chars[op] == '+' || chars[op] == '-' {
            let start = Expression::spaces(chars, op + 1);
            match Expression::expr(text, chars, start) {
                Some(right) => {
                    if chars[op] == '+' {
                        let e = Expr::Add(Box::new(name), Box::new(right));
                        assert(e@ == ExprView::Add(Box::new(name@), Box::new(right@)));
                        Some(e)
                    } else {
                        let e = Expr::Sub(Box::new(name), Box::new(right));
                        assert(e@ == ExprView::Sub(Box::new(name@), Box::new(right@)));
                        Some(e)
                    }
                },
                None => None,
            }
        } else {
            None
        }
    }

    /// Parses `text`, which must be one expression from its first character to
    /// its last.
    pub fn parse(text: &str) -> (r: Result<Expr, ErrorKind>)
        ensures
            match r {
                Ok(e) => parsed(text@) == Some(e@),
                Err(error) => parsed(text@) is None && error@ == crate::errors::ErrorView::Parse(
                    text@,
                ),
            },
    {
        let chars = chars_of(text);
        match Expression::expr(text, &chars, 0) {
            Some(e) => Ok(e),
            None => Err(ErrorKind::Parse(text.to_owned())),
        }
    }
}

} // verus!
