//! The mathematical model of the account tree, and what each operation on the
//! tree computes.
//!
//! A ledger is a tree whose inner nodes map names to children and whose leaves
//! are accounts. A path such as `assets:cash` names the nodes from the root
//! down, one name per `:`-separated segment. Children are kept in the order in
//! which they were added.

use crate::errors::ErrorView;
use crate::expression::ExprView;
use crate::money::portion;
use vstd::prelude::*;

verus! {

/// A leaf account: a stored balance in millionths, or a formula.
pub enum AccountView {
    Simple(int),
    Derived(ExprView),
}

/// An account tree.
pub enum Ledger {
    Tree(Seq<(Seq<char>, Ledger)>),
    Leaf(AccountView),
}

/// The named children of a tree node.
pub type Children = Seq<(Seq<char>, Ledger)>;

/// The first index from `i` on at which `path` holds a `:`.
pub open spec fn colon_from(path: Seq<char>, i: int) -> Option<int>
    decreases path.len() - i,
{
    if 0 <= i < path.len() {
        if path[i] == ':' {
            Some(i)
        } else {
            colon_from(path, i + 1)
        }
    } else {
        None
    }
}

/// The index of the first `:` of `path`.
pub open spec fn colon(path: Seq<char>) -> Option<int> {
    colon_from(path, 0)
}

/// The first index from `i` on of a child named `name`.
pub open spec fn position_from(c: Children, name: Seq<char>, i: int) -> Option<int>
    decreases c.len() - i,
{
    if 0 <= i < c.len() {
        if c[i].0 == name {
            Some(i)
        } else {
            position_from(c, name, i + 1)
        }
    } else {
        None
    }
}

/// The index of the first child named `name`.
pub open spec fn position(c: Children, name: Seq<char>) -> Option<int> {
    position_from(c, name, 0)
}

/// Where `colon_from` finds a `:`, it is the first from `i` on.
pub proof fn lemma_colon_from(path: Seq<char>, i: int)
    requires
        0 <= i,
    ensures
        match colon_from(path, i) {
            Some(k) => i <= k < path.len() && path[k] == ':' && forall|j: int|
                i <= j < k ==> path[j] != ':',
            None => forall|j: int| i <= j < path.len() ==> path[j] != ':',
        },
    decreases path.len() - i,
{
    if i < path.len() && path[i] != ':' {
        lemma_colon_from(path, i + 1);
    }
}

/// Where `colon` finds a `:`, it is the first of the path.
pub proof fn lemma_colon(path: Seq<char>)
    ensures
        match colon(path) {
            Some(k) => 0 <= k < path.len() && path[k] == ':' && forall|j: int|
                0 <= j < k ==> path[j] != ':',
            None => forall|j: int| 0 <= j < path.len() ==> path[j] != ':',
        },
{
    lemma_colon_from(path, 0);
}

/// Where `position_from` finds a child, it is the first of that name from `i` on.
pub proof fn lemma_position_from(c: Children, name: Seq<char>, i: int)
    requires
        0 <= i,
    ensures
        match position_from(c, name, i) {
            Some(k) => i <= k < c.len() && c[k].0 == name && forall|j: int|
                i <= j < k ==> c[j].0 != name,
            None => forall|j: int| i <= j < c.len() ==> c[j].0 != name,
        },
    decreases c.len() - i,
{
    if i < c.len() && c[i].0 != name {
        lemma_position_from(c, name, i + 1);
    }
}

/// Where `position` finds a child, it is the first of that name.
pub proof fn lemma_position(c: Children, name: Seq<char>)
    ensures
        match position(c, name) {
            Some(k) => 0 <= k < c.len() && c[k].0 == name && forall|j: int|
                0 <= j < k ==> c[j].0 != name,
            None => forall|j: int| 0 <= j < c.len() ==> c[j].0 != name,
        },
{
    lemma_position_from(c, name, 0);
}

/// The balance that a leaf stores: a derived account stores none.
pub open spec fn stored(a: AccountView) -> int {
    match a {
        AccountView::Simple(amount) => amount,
        AccountView::Derived(_) => 0,
    }
}

/// The sum of the balances stored under a node.
pub open spec fn total(l: Ledger) -> int
    decreases l,
{
    match l {
        Ledger::Tree(c) => total_all(c),
        Ledger::Leaf(a) => stored(a),
    }
}

/// The sum of the balances stored under the given children.
pub open spec fn total_all(c: Children) -> int
    decreases c,
{
    if c.len() == 0 {
        0
    } else {
        total_all(c.drop_last()) + total(c.last().1)
    }
}

/// The node that `path` names below `l`, or the error of a path that names
/// none. Below a tree node the segment before the first `:` names the child
/// and the rest is resolved below that child; a path without `:` names a
/// child and nothing below it. A leaf is named by the empty path only.
pub open spec fn lookup(l: Ledger, path: Seq<char>) -> Result<Ledger, ErrorView>
    decreases l,
{
    match l {
        Ledger::Tree(c) => match colon(path) {
            Some(k) => match position(c, path.take(k)) {
                Some(i) => {
                    proof {
                        lemma_position(c, path.take(k));
                    }
                    lookup(c[i].1, path.skip(k + 1))
                },
                None => Err(ErrorView::InvalidAccountName(path)),
            },
            None => match position(c, path) {
                Some(i) => Ok(c[i].1),
                None => Err(ErrorView::InvalidAccountName(path)),
            },
        },
        Ledger::Leaf(_) => if path.len() == 0 {
            Ok(l)
        } else {
            Err(ErrorView::InvalidAccountName(path))
        },
    }
}

/// The path of a child named `name` of the node at `prefix`.
pub open spec fn child_path(prefix: Seq<char>, name: Seq<char>) -> Seq<char> {
    if prefix.len() == 0 {
        name
    } else {
        prefix + seq![':'] + name
    }
}

/// The paths of the leaves under `l`, depth first, where `l` stands at `prefix`.
pub open spec fn leaf_paths(l: Ledger, prefix: Seq<char>) -> Seq<Seq<char>>
    decreases l,
{
    match l {
        Ledger::Tree(c) => leaf_paths_all(c, prefix),
        Ledger::Leaf(_) => seq![prefix],
    }
}

/// The paths of the leaves under the given children of the node at `prefix`.
pub open spec fn leaf_paths_all(c: Children, prefix: Seq<char>) -> Seq<Seq<char>>
    decreases c,
{
    if c.len() == 0 {
        Seq::empty()
    } else {
        leaf_paths_all(c.drop_last(), prefix) + leaf_paths(
            c.last().1,
            child_path(prefix, c.last().0),
        )
    }
}

/// The leaves under `l`, each with its path, depth first.
pub open spec fn leaves(l: Ledger, prefix: Seq<char>) -> Seq<(Seq<char>, AccountView)>
    decreases l,
{
    match l {
        Ledger::Tree(c) => leaves_all(c, prefix),
        Ledger::Leaf(a) => seq![(prefix, a)],
    }
}

/// The leaves under the given children of the node at `prefix`.
pub open spec fn leaves_all(c: Children, prefix: Seq<char>) -> Seq<(Seq<char>, AccountView)>
    decreases c,
{
    if c.len() == 0 {
        Seq::empty()
    } else {
        leaves_all(c.drop_last(), prefix) + leaves(c.last().1, child_path(prefix, c.last().0))
    }
}

/// The tree after an account is created at `path`, or the error. Missing
/// nodes on the way are created. Where the path ends at a name that is taken,
/// the account already exists; where it runs on below a leaf, it is invalid;
/// where it ends exactly at a leaf, nothing changes.
pub open spec fn created(l: Ledger, path: Seq<char>, account: AccountView) -> Result<
    Ledger,
    ErrorView,
>
    decreases path.len(),
{
    match l {
        Ledger::Tree(c) => match colon(path) {
            Some(k) => {
                let name = path.take(k);
                let rest = path.skip(k + 1);
                proof {
                    lemma_colon(path);
                }
                match position(c, name) {
                    Some(i) => match created(c[i].1, rest, account) {
                        Ok(child) => Ok(Ledger::Tree(c.update(i, (c[i].0, child)))),
                        Err(e) => Err(e),
                    },
                    None => match created(Ledger::Tree(Seq::empty()), rest, account) {
                        Ok(child) => Ok(Ledger::Tree(c.push((name, child)))),
                        Err(e) => Err(e),
                    },
                }
            },
            None => match position(c, path) {
                Some(_) => Err(ErrorView::AlreadyExists(path)),
                None => Ok(Ledger::Tree(c.push((path, Ledger::Leaf(account))))),
            },
        },
        Ledger::Leaf(_) => if path.len() == 0 {
            Ok(l)
        } else {
            Err(ErrorView::InvalidAccountName(path))
        },
    }
}

/// The tree after `amount` is added to the account at `path`, or the error.
/// A leaf takes the deposit whatever is left of the path; a derived leaf
/// refuses it. Below a tree node a path with a `:` is routed by its first
/// segment, and a missing child is created as an empty tree; a path without
/// `:` is routed, unshortened, into the child of that name, and is dropped
/// where there is none.
pub open spec fn deposited(l: Ledger, path: Seq<char>, amount: int) -> Result<Ledger, ErrorView>
    decreases path.len(), l,
{
    match l {
        Ledger::Tree(c) => match colon(path) {
            Some(k) => {
                let name = path.take(k);
                let rest = path.skip(k + 1);
                proof {
                    lemma_colon(path);
                }
                match position(c, name) {
                    Some(i) => match deposited(c[i].1, rest, amount) {
                        Ok(child) => Ok(Ledger::Tree(c.update(i, (c[i].0, child)))),
                        Err(e) => Err(e),
                    },
                    None => match deposited(Ledger::Tree(Seq::empty()), rest, amount) {
                        Ok(child) => Ok(Ledger::Tree(c.push((name, child)))),
                        Err(e) => Err(e),
                    },
                }
            },
            None => match position(c, path) {
                Some(i) => {
                    proof {
                        lemma_position(c, path);
                    }
                    match deposited(c[i].1, path, amount) {
                        Ok(child) => Ok(Ledger::Tree(c.update(i, (c[i].0, child)))),
                        Err(e) => Err(e),
                    }
                },
                None => Ok(l),
            },
        },
        Ledger::Leaf(AccountView::Simple(balance)) => Ok(
            Ledger::Leaf(AccountView::Simple(balance + amount)),
        ),
        Ledger::Leaf(AccountView::Derived(_)) => Err(ErrorView::InvalidDeposit(path, amount)),
    }
}

/// The first name, depth first, that holds a `:`.
pub open spec fn first_bad_name(l: Ledger) -> Option<Seq<char>>
    decreases l, 0nat,
{
    match l {
        Ledger::Tree(c) => first_bad_name_from(c, 0),
        Ledger::Leaf(_) => None,
    }
}

/// The first name that holds a `:` among the children from `i` on and what
/// stands below them.
pub open spec fn first_bad_name_from(c: Children, i: int) -> Option<Seq<char>>
    decreases c, c.len() - i,
{
    if 0 <= i < c.len() {
        if colon(c[i].0) is Some {
            Some(c[i].0)
        } else {
            match first_bad_name(c[i].1) {
                Some(name) => Some(name),
                None => first_bad_name_from(c, i + 1),
            }
        }
    } else {
        None
    }
}

/// The value of an expression: a path stands for the sum of the balances
/// stored under the node it names.
pub open spec fn value_of(e: ExprView, root: Ledger) -> Result<int, ErrorView>
    decreases e,
{
    match e {
        ExprView::Id(path) => match lookup(root, path) {
            Ok(node) => Ok(total(node)),
            Err(error) => Err(error),
        },
        ExprView::Add(l, r) => match value_of(*l, root) {
            Ok(a) => match value_of(*r, root) {
                Ok(b) => Ok(a + b),
                Err(error) => Err(error),
            },
            Err(error) => Err(error),
        },
        ExprView::Sub(l, r) => match value_of(*l, root) {
            Ok(a) => match value_of(*r, root) {
                Ok(b) => Ok(a - b),
                Err(error) => Err(error),
            },
            Err(error) => Err(error),
        },
    }
}

/// The current value of the account at `path`: the node there must be a leaf;
/// a simple account is worth its balance, a derived one the value of its
/// formula.
pub open spec fn balance_at(root: Ledger, path: Seq<char>) -> Result<int, ErrorView> {
    match lookup(root, path) {
        Ok(Ledger::Leaf(AccountView::Simple(balance))) => Ok(balance),
        Ok(Ledger::Leaf(AccountView::Derived(e))) => value_of(e, root),
        Ok(Ledger::Tree(_)) => Err(ErrorView::UnwrapNode),
        Err(error) => Err(error),
    }
}

/// The current values of the accounts at the given paths, in their order, or
/// the first error.
pub open spec fn balances_at(root: Ledger, paths: Seq<Seq<char>>) -> Result<
    Seq<(Seq<char>, int)>,
    ErrorView,
>
    decreases paths.len(),
{
    if paths.len() == 0 {
        Ok(Seq::empty())
    } else {
        match balances_at(root, paths.drop_last()) {
            Ok(done) => match balance_at(root, paths.last()) {
                Ok(balance) => Ok(done.push((paths.last(), balance))),
                Err(error) => Err(error),
            },
            Err(error) => Err(error),
        }
    }
}

/// The current value of every leaf account, by path.
pub open spec fn evaluated(root: Ledger) -> Result<Seq<(Seq<char>, int)>, ErrorView> {
    balances_at(root, leaf_paths(root, Seq::empty()))
}

/// The value listed first for `path`.
pub open spec fn listed(entries: Seq<(Seq<char>, int)>, path: Seq<char>) -> Option<int>
    decreases entries.len(),
{
    if entries.len() == 0 {
        None
    } else if entries[0].0 == path {
        Some(entries[0].1)
    } else {
        listed(entries.drop_first(), path)
    }
}

/// An account can always be created below an empty tree.
pub proof fn lemma_created_in_empty(path: Seq<char>, account: AccountView)
    ensures
        created(Ledger::Tree(Seq::empty()), path, account) is Ok,
    decreases path.len(),
{
    let none: Children = Seq::empty();
    match colon(path) {
        Some(k) => {
            lemma_colon(path);
            lemma_position(none, path.take(k));
            lemma_created_in_empty(path.skip(k + 1), account);
        },
        None => {
            lemma_position(none, path);
        },
    }
}

/// A deposit below an empty tree meets no account and is dropped without error.
pub proof fn lemma_deposited_in_empty(path: Seq<char>, amount: int)
    ensures
        deposited(Ledger::Tree(Seq::empty()), path, amount) is Ok,
    decreases path.len(),
{
    let none: Children = Seq::empty();
    match colon(path) {
        Some(k) => {
            lemma_colon(path);
            lemma_position(none, path.take(k));
            lemma_deposited_in_empty(path.skip(k + 1), amount);
        },
        None => {
            lemma_position(none, path);
        },
    }
}

/// The children up to and with the `i`-th list the leaves of those before it
/// and then those of the `i`-th.
pub proof fn lemma_leaf_paths_step(c: Children, prefix: Seq<char>, i: int)
    requires
        0 <= i < c.len(),
    ensures
        leaf_paths_all(c.take(i + 1), prefix) == leaf_paths_all(c.take(i), prefix) + leaf_paths(
            c[i].1,
            child_path(prefix, c[i].0),
        ),
{
    assert(c.take(i + 1).drop_last() =~= c.take(i));
}

/// An error at one path is the error of the whole list, if no earlier path fails.
pub proof fn lemma_balances_error(root: Ledger, paths: Seq<Seq<char>>, i: int)
    requires
        0 <= i < paths.len(),
        balances_at(root, paths.take(i)) is Ok,
        balance_at(root, paths[i]) is Err,
    ensures
        balances_at(root, paths) == Err::<Seq<(Seq<char>, int)>, ErrorView>(
            balance_at(root, paths[i])->Err_0,
        ),
    decreases paths.len(),
{
    if i == paths.len() - 1 {
        assert(paths.drop_last() =~= paths.take(i));
    } else {
        assert(paths.drop_last().take(i) =~= paths.take(i));
        lemma_balances_error(root, paths.drop_last(), i);
    }
}

/// What a transaction moves: an amount in millionths, or a rate in billionths
/// of what the debited account holds.
pub enum AmountView {
    Money(int),
    Percent(int),
}

/// A transfer of an amount from one account to another on a day.
pub struct TransactionView {
    pub amount: AmountView,
    pub from: Seq<char>,
    pub to: Seq<char>,
    pub date: int,
}

/// The amount in millionths that `amount` comes to when it is taken from the
/// account at `from`. Every account is evaluated first, so an account that
/// cannot be evaluated is an error whatever the amount; a rate is applied to
/// the current value of the account at `from`.
pub open spec fn resolved(amount: AmountView, root: Ledger, from: Seq<char>) -> Result<
    int,
    ErrorView,
> {
    match evaluated(root) {
        Ok(entries) => match amount {
            AmountView::Money(m) => Ok(m),
            AmountView::Percent(rate) => match listed(entries, from) {
                Some(balance) => Ok(portion(balance, rate)),
                None => Err(ErrorView::InvalidAccountName(from)),
            },
        },
        Err(error) => Err(error),
    }
}

/// The tree with a simple account of balance zero at `path`, where the path
/// named no node before.
pub open spec fn opened(root: Ledger, path: Seq<char>) -> Result<Ledger, ErrorView> {
    if lookup(root, path) is Err {
        created(root, path, AccountView::Simple(0))
    } else {
        Ok(root)
    }
}

/// The tree after a transaction: both accounts are opened where they are
/// missing, the amount is resolved against the tree as it then stands, and is
/// then taken from the one account and added to the other.
pub open spec fn applied(root: Ledger, t: TransactionView) -> Result<Ledger, ErrorView> {
    match opened(root, t.from) {
        Ok(with_from) => match opened(with_from, t.to) {
            Ok(with_both) => match resolved(t.amount, with_both, t.from) {
                Ok(amount) => match deposited(with_both, t.from, -amount) {
                    Ok(debited) => deposited(debited, t.to, amount),
                    Err(error) => Err(error),
                },
                Err(error) => Err(error),
            },
            Err(error) => Err(error),
        },
        Err(error) => Err(error),
    }
}

} // verus!
