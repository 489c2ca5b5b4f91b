//! The account tree: named accounts addressed by `:`-separated paths.

use crate::errors::{ErrorKind, ErrorView};
use crate::expression::{chars_of, Expr};
use crate::ledger::{
    applied, balance_at, balances_at, child_path, colon, colon_from, created, deposited,
    evaluated, first_bad_name, first_bad_name_from, leaf_paths, leaf_paths_all, leaves,
    leaves_all, lemma_balances_error, lemma_colon, lemma_created_in_empty,
    lemma_deposited_in_empty, lemma_leaf_paths_step, listed, lookup, opened, position,
    position_from, stored, total, total_all, value_of, AccountView, Children, Ledger,
};
use crate::laws::{
    lemma_applied_well_named, lemma_created_well_named, lemma_deposited_well_named, well_named,
};
use crate::money::Money;
use crate::transaction::Transaction;
use vstd::prelude::*;

verus! {

/// An account that stores its balance.
#[derive(Debug, PartialEq, Eq)]
pub struct SimpleAccount {
    pub amount: Money,
}

/// An account whose balance is the value of a formula over other accounts.
#[derive(Debug, PartialEq, Eq)]
pub struct DerivedAccount {
    pub expression: Expr,
}

/// A leaf of the account tree.
#[derive(Debug, PartialEq, Eq)]
pub enum Account {
    Simple(SimpleAccount),
    Derived(DerivedAccount),
}

/// A node of the account tree: named children in the order in which they were
/// added, or a leaf account.
#[derive(Debug, PartialEq, Eq)]
pub enum Accounts {
    Tree(Vec<(String, Accounts)>),
    Leaf(Account),
}

impl View for Account {
    type V = AccountView;

    open spec fn view(&self) -> AccountView {
        match self {
            Account::Simple(s) => AccountView::Simple(s.amount@),
            Account::Derived(d) => AccountView::Derived(d.expression@),
        }
    }
}

/// The model of a node.
pub open spec fn ledger_of(a: Accounts) -> Ledger
    decreases a,
{
    match a {
        Accounts::Tree(c) => Ledger::Tree(
            Seq::new(
                c@.len(),
                |i: int|
                    if 0 <= i < c@.len() {
                        (c@[i].0@, ledger_of(c@[i].1))
                    } else {
                        (Seq::empty(), Ledger::Tree(Seq::empty()))
                    },
            ),
        ),
        Accounts::Leaf(account) => Ledger::Leaf(account@),
    }
}

impl View for Accounts {
    type V = Ledger;

    open spec fn view(&self) -> Ledger {
        ledger_of(*self)
    }
}

/// The model of a list of named children.
pub open spec fn entries_view(c: Seq<(String, Accounts)>) -> Children {
    Seq::new(c.len(), |i: int| (c[i].0@, c[i].1@))
}

/// The model of a tree node is the tree of its children's models.
pub proof fn lemma_tree_view(c: Vec<(String, Accounts)>)
    ensures
        Accounts::Tree(c)@ == Ledger::Tree(entries_view(c@)),
{
    let l = Accounts::Tree(c)@;
    assert(l->Tree_0 =~= entries_view(c@));
}

/// Splits a path at its first `:` into the segment before it and the rest.
pub fn split_path(path: &str) -> (parts: Option<(String, String)>)
    ensures
        match parts {
            Some((head, rest)) => colon(path@) is Some && head@ == path@.take(colon(path@)->0)
                && rest@ == path@.skip(colon(path@)->0 + 1),
            None => colon(path@) is None,
        },
{
    let chars = chars_of(path);
    let mut i: usize = 0;
    while i < chars.len() && chars[i] != ':'
        invariant
            i <= chars@.len(),
            colon_from(chars@, 0) == colon_from(chars@, i as int),
        decreases chars@.len() - i,
    {
        i = i + 1;
    }
    if i < chars.len() {
        let head = path.substring_char(0, i).to_owned();
        let rest = path.substring_char(i + 1, chars.len()).to_owned();
        Some((head, rest))
    } else {
        None
    }
}

/// The index of the first child of the given name.
pub fn find_child(children: &Vec<(String, Accounts)>, name: &String) -> (found: Option<usize>)
    ensures
        match found {
            Some(i) => i < children@.len() && position(entries_view(children@), name@) == Some(
                i as int,
            ),
            None => position(entries_view(children@), name@) is None,
        },
{
    let ghost c = entries_view(children@);
    let mut i: usize = 0;
    while i < children.len()
        invariant
            i <= children@.len(),
            c == entries_view(children@),
            position_from(c, name@, 0) == position_from(c, name@, i as int),
        decreases children@.len() - i,
    {
        if children[i].0 == *name {
            return Some(i);
        }
        i = i + 1;
    }
    None
}

impl Clone for SimpleAccount {
    fn clone(&self) -> (copy: SimpleAccount)
        ensures
            copy.amount@ == self.amount@,
    {
        SimpleAccount { amount: self.amount.clone() }
    }
}

impl Clone for DerivedAccount {
    fn clone(&self) -> (copy: DerivedAccount)
        ensures
            copy.expression@ == self.expression@,
    {
        DerivedAccount { expression: self.expression.clone() }
    }
}

impl Clone for Account {
    fn clone(&self) -> (copy: Account)
        ensures
            copy@ == self@,
    {
        match self {
            Account::Simple(s) => Account::Simple(s.clone()),
            Account::Derived(d) => Account::Derived(d.clone()),
        }
    }
}

impl Clone for Accounts {
    fn clone(&self) -> (copy: Accounts)
        ensures
            copy@ == self@,
        decreases self,
    {
        match self {
            Accounts::Tree(children) => {
                let mut copies: Vec<(String, Accounts)> = Vec::new();
                let mut i: usize = 0;
                while i < children.len()
                    invariant
                        i <= children@.len(),
                        self is Tree && self->Tree_0 == *children,
                        copies@.len() == i,
                        entries_view(copies@) == entries_view(children@).take(i as int),
                    decreases children@.len() - i,
                {
                    let name = children[i].0.clone();
                    let child = children[i].1.clone();
                    proof {
                        let next = copies@.push((name, child));
                        let target = entries_view(children@).take(i + 1);
                        assert(entries_view(next).len() == target.len());
                        assert forall|j: int| 0 <= j < target.len() implies entries_view(next)[j]
                            == target[j] by {
                            if j < i {
                                assert(entries_view(copies@)[j] == entries_view(children@).take(
                                    i as int,
                                )[j]);
                            }
                        }
                        assert(entries_view(next) =~= target);
                    }
                    copies.push((name, child));
                    i = i + 1;
                }
                proof {
                    assert(entries_view(children@).take(i as int) =~= entries_view(children@));
                    lemma_tree_view(*children);
                    lemma_tree_view(copies);
                }
                Accounts::Tree(copies)
            },
            Accounts::Leaf(account) => Accounts::Leaf(account.clone()),
        }
    }
}

impl Account {
    /// The balance that the account stores: none for a derived account.
    pub fn amount(&self) -> (balance: Money)
        ensures
            balance@ == stored(self@),
    {
        match self {
            Account::Simple(s) => s.amount.clone(),
            Account::Derived(_) => Money::zero(),
        }
    }
}

impl Accounts {
    /// An empty tree.
    pub fn root() -> (tree: Accounts)
        ensures
            tree@ == Ledger::Tree(Seq::empty()),
            well_named(tree@),
    {
        let children: Vec<(String, Accounts)> = Vec::new();
        proof {
            lemma_tree_view(children);
            assert(entries_view(children@) =~= Seq::empty());
        }
        Accounts::Tree(children)
    }

    /// The account of a leaf node.
    pub fn leaf(&self) -> (r: Result<&Account, ErrorKind>)
        ensures
            match r {
                Ok(account) => *self == Accounts::Leaf(*account),
                Err(error) => self is Tree && error == ErrorKind::UnwrapNode,
            },
    {
        match self {
            Accounts::Tree(_) => Err(ErrorKind::UnwrapNode),
            Accounts::Leaf(account) => Ok(account),
        }
    }

    /// The node that `path` names below this one.
    pub fn get<'a>(&'a self, path: &str) -> (r: Result<&'a Accounts, ErrorKind>)
        ensures
            match r {
                Ok(node) => lookup(self@, path@) == Ok::<Ledger, ErrorView>(node@),
                Err(error) => lookup(self@, path@) == Err::<Ledger, ErrorView>(error@),
            },
        decreases self,
    {
        match self {
            Accounts::Tree(children) => {
                proof {
                    lemma_tree_view(*children);
                }
                match split_path(path) {
                    Some((head, rest)) => match find_child(children, &head) {
                        Some(i) => children[i].1.get(rest.as_str()),
                        None => Err(ErrorKind::InvalidAccountName(path.to_owned())),
                    },
                    None => {
                        let name = path.to_owned();
                        match find_child(children, &name) {
                            Some(i) => Ok(&children[i].1),
                            None => Err(ErrorKind::InvalidAccountName(name)),
                        }
                    },
                }
            },
            Accounts::Leaf(_) => {
                if path.is_empty() {
                    Ok(self)
                } else {
                    Err(ErrorKind::InvalidAccountName(path.to_owned()))
                }
            },
        }
    }

    /// The sum of the balances stored under this node.
    pub fn sum(&self) -> (sum: Money)
        ensures
            sum@ == total(self@),
        decreases self,
    {
        match self {
            Accounts::Tree(children) => {
                let mut result = Money::from_i32(0);
                let mut i: usize = 0;
                proof {
                    lemma_tree_view(*children);
                }
                while i < children.len()
                    invariant
                        i <= children@.len(),
                        self is Tree && self->Tree_0 == *children,
                        result@ == total_all(entries_view(children@).take(i as int)),
                    decreases children@.len() - i,
                {
                    let part = children[i].1.sum();
                    proof {
                        let c = entries_view(children@);
                        assert(c.take(i + 1).drop_last() =~= c.take(i as int));
                    }
                    result.add_assign(part);
                    i = i + 1;
                }
                proof {
                    assert(entries_view(children@).take(i as int) =~= entries_view(children@));
                }
                result
            },
            Accounts::Leaf(account) => account.amount(),
        }
    }

    /// Folds `f` over the leaf accounts under this node, depth first: `f` takes
    /// what the accounts before gave, the path of the account and the account.
    pub fn fold_with_path<B, F: Fn(B, &str, Account) -> B>(self, init: B, f: F) -> (result: B)
        requires
            forall|b: B, path: &str, account: Account| f.requires((b, path, account)),
        ensures
            folds_to(f, init, leaves(self@, Seq::empty()), result),
    {
        proof {
            reveal_strlit("");
            assert(""@ =~= Seq::<char>::empty());
        }
        self.fold_with_path_internal(init, "", &f)
    }

    /// Folds `f` over the leaf accounts under this node, which stands at `path`.
    fn fold_with_path_internal<B, F: Fn(B, &str, Account) -> B>(
        self,
        init: B,
        path: &str,
        f: &F,
    ) -> (result: B)
        requires
            forall|b: B, path: &str, account: Account| f.requires((b, path, account)),
        ensures
            folds_to(*f, init, leaves(self@, path@), result),
        decreases self,
    {
        match self {
            Accounts::Tree(children) => {
                let ghost c = entries_view(children@);
                let ghost n = children@.len();
                proof {
                    lemma_tree_view(children);
                }
                let mut stack = reversed(children);
                let mut result = init;
                proof {
                    assert(c.take(0) =~= Seq::empty());
                }
                while stack.len() > 0
                    invariant
                        stack@.len() <= n,
                        n == children@.len(),
                        self is Tree && self->Tree_0 == children,
                        c == entries_view(children@),
                        forall|i: int|
                            0 <= i < stack@.len() ==> stack@[i] == children@[n - 1 - i],
                        forall|b: B, path: &str, account: Account| f.requires((b, path, account)),
                        folds_to(*f, init, leaves_all(c.take(n - stack@.len()), path@), result),
                    decreases stack@.len(),
                {
                    let ghost done = n - stack@.len();
                    let ghost before = result;
                    let (name, account) = stack.pop().unwrap();
                    let below = join_path(path, &name);
                    proof {
                        assert(children@[done] == (name, account));
                        assert(c.take(done + 1).drop_last() =~= c.take(done));
                        assert(c.take(done + 1).last() == c[done]);
                    }
                    result = account.fold_with_path_internal(result, below.as_str(), f);
                    proof {
                        lemma_folds_on(
                            *f,
                            init,
                            leaves_all(c.take(done), path@),
                            before,
                            leaves(c[done].1, child_path(path@, c[done].0)),
                            result,
                        );
                    }
                }
                proof {
                    assert(c.take(n as int) =~= c);
                }
                result
            },
            Accounts::Leaf(account) => {
                let ghost view = account@;
                let result = f(init, path, account);
                proof {
                    let one = seq![(path@, view)];
                    assert(one.drop_last() =~= Seq::empty());
                    assert(folds_to(*f, init, one.drop_last(), init));
                }
                result
            },
        }
    }

    /// The paths of the leaf accounts under this node, depth first, children
    /// in the order in which they were added.
    pub fn paths(&self) -> (paths: Vec<String>)
        ensures
            texts(paths@) == leaf_paths(self@, Seq::empty()),
    {
        proof {
            reveal_strlit("");
            assert(""@ =~= Seq::<char>::empty());
        }
        self.paths_internal("")
    }

    /// The paths of the leaf accounts under this node, which stands at `path`.
    fn paths_internal(&self, path: &str) -> (paths: Vec<String>)
        ensures
            texts(paths@) == leaf_paths(self@, path@),
        decreases self,
    {
        match self {
            Accounts::Tree(children) => {
                let mut result: Vec<String> = Vec::new();
                let mut i: usize = 0;
                proof {
                    lemma_tree_view(*children);
                    assert(texts(result@) =~= Seq::<Seq<char>>::empty());
                }
                while i < children.len()
                    invariant
                        i <= children@.len(),
                        self is Tree && self->Tree_0 == *children,
                        texts(result@) == leaf_paths_all(
                            entries_view(children@).take(i as int),
                            path@,
                        ),
                    decreases children@.len() - i,
                {
                    let below = join_path(path, &children[i].0);
                    let mut part = children[i].1.paths_internal(below.as_str());
                    proof {
                        lemma_leaf_paths_step(entries_view(children@), path@, i as int);
                        assert(texts(result@ + part@) =~= texts(result@) + texts(part@));
                    }
                    result.append(&mut part);
                    i = i + 1;
                }
                proof {
                    assert(entries_view(children@).take(i as int) =~= entries_view(children@));
                }
                result
            },
            Accounts::Leaf(_) => {
                let mut result: Vec<String> = Vec::new();
                result.push(path.to_owned());
                proof {
                    assert(texts(result@) =~= seq![path@]);
                }
                result
            },
        }
    }

    /// The paths of the leaf accounts, as `paths` gives them.
    pub fn get_account_names(&self) -> (names: Vec<String>)
        ensures
            texts(names@) == leaf_paths(self@, Seq::empty()),
    {
        self.paths()
    }

    /// Creates an account at `path`, with the tree nodes that lead to it.
    pub fn create_account(&mut self, path: String, account: Account) -> (r: Result<(), ErrorKind>)
        ensures
            match created(old(self)@, path@, account@) {
                Ok(tree) => r is Ok && final(self)@ == tree,
                Err(error) => r is Err && r->Err_0@ == error && final(self)@ == old(self)@,
            },
            well_named(old(self)@) ==> well_named(final(self)@),
        decreases path@.len(),
    {
        proof {
            if well_named(self@) && created(self@, path@, account@) is Ok {
                lemma_created_well_named(self@, path@, account@);
            }
        }
        match self {
            Accounts::Tree(children) => {
                let ghost before = children@;
                proof {
                    lemma_tree_view(*children);
                    lemma_colon(path@);
                }
                match split_path(path.as_str()) {
                    Some((head, rest)) => {
                        match find_child(children, &head) {
                            Some(i) => {
                                let r = children[i].1.create_account(rest, account);
                                proof {
                                    lemma_tree_view(*children);
                                    let c = entries_view(before);
                                    assert(entries_view(children@) =~= c.update(
                                        i as int,
                                        (c[i as int].0, children@[i as int].1@),
                                    ));
                                    if r is Err {
                                        assert(entries_view(children@) =~= c);
                                    }
                                }
                                r
                            },
                            None => {
                                let ghost name = head@;
                                children.push((head, Accounts::root()));
                                let last = children.len() - 1;
                                let r = children[last].1.create_account(rest, account);
                                proof {
                                    lemma_tree_view(*children);
                                    lemma_created_in_empty(rest@, account@);
                                    let c = entries_view(before);
                                    assert(entries_view(children@) =~= c.push(
                                        (name, children@[last as int].1@),
                                    ));
                                }
                                r
                            },
                        }
                    },
                    None => {
                        match find_child(children, &path) {
                            Some(_) => Err(ErrorKind::AlreadyExists(path)),
                            None => {
                                let ghost name = path@;
                                children.push((path, Accounts::Leaf(account)));
                                proof {
                                    lemma_tree_view(*children);
                                    let c = entries_view(before);
                                    assert(entries_view(children@) =~= c.push(
                                        (name, Ledger::Leaf(account@)),
                                    ));
                                }
                                Ok(())
                            },
                        }
                    },
                }
            },
            Accounts::Leaf(_) => {
                if path.as_str().is_empty() {
                    Ok(())
                } else {
                    Err(ErrorKind::InvalidAccountName(path))
                }
            },
        }
    }

    /// Adds `amount` to the account that `path` leads to. A negative amount
    /// withdraws.
    pub fn deposit(&mut self, path: String, amount: Money) -> (r: Result<(), ErrorKind>)
        ensures
            match deposited(old(self)@, path@, amount@) {
                Ok(tree) => r is Ok && final(self)@ == tree,
                Err(error) => r is Err && r->Err_0@ == error && final(self)@ == old(self)@,
            },
            well_named(old(self)@) ==> well_named(final(self)@),
        decreases path@.len(), *old(self),
    {
        proof {
            if well_named(self@) && deposited(self@, path@, amount@) is Ok {
                lemma_deposited_well_named(self@, path@, amount@);
            }
        }
        match self {
            Accounts::Tree(children) => {
                let ghost before = children@;
                proof {
                    lemma_tree_view(*children);
                    lemma_colon(path@);
                }
                match split_path(path.as_str()) {
                    Some((head, rest)) => {
                        match find_child(children, &head) {
                            Some(i) => {
                                let r = children[i].1.deposit(rest, amount);
                                proof {
                                    lemma_tree_view(*children);
                                    let c = entries_view(before);
                                    assert(entries_view(children@) =~= c.update(
                                        i as int,
                                        (c[i as int].0, children@[i as int].1@),
                                    ));
                                    if r is Err {
                                        assert(entries_view(children@) =~= c);
                                    }
                                }
                                r
                            },
                            None => {
                                let ghost name = head@;
                                children.push((head, Accounts::root()));
                                let last = children.len() - 1;
                                let r = children[last].1.deposit(rest, amount);
                                proof {
                                    lemma_tree_view(*children);
                                    lemma_deposited_in_empty(rest@, amount@);
                                    let c = entries_view(before);
                                    assert(entries_view(children@) =~= c.push(
                                        (name, children@[last as int].1@),
                                    ));
                                }
                                r
                            },
                        }
                    },
                    None => {
                        match find_child(children, &path) {
                            Some(i) => {
                                let r = children[i].1.deposit(path, amount);
                                proof {
                                    lemma_tree_view(*children);
                                    let c = entries_view(before);
                                    assert(entries_view(children@) =~= c.update(
                                        i as int,
                                        (c[i as int].0, children@[i as int].1@),
                                    ));
                                    if r is Err {
                                        assert(entries_view(children@) =~= c);
                                    }
                                }
                                r
                            },
                            None => Ok(()),
                        }
                    },
                }
            },
            Accounts::Leaf(Account::Simple(simple)) => {
                simple.amount.add_assign(amount);
                Ok(())
            },
            Accounts::Leaf(Account::Derived(_)) => Err(ErrorKind::InvalidDeposit(path, amount)),
        }
    }

    /// Takes `amount` from the account that `path` leads to.
    pub fn withdraw(&mut self, path: String, amount: Money) -> (r: Result<(), ErrorKind>)
        ensures
            match deposited(old(self)@, path@, -amount@) {
                Ok(tree) => r is Ok && final(self)@ == tree,
                Err(error) => r is Err && r->Err_0@ == error && final(self)@ == old(self)@,
            },
            well_named(old(self)@) ==> well_named(final(self)@),
    {
        self.deposit(path, amount.neg())
    }

    /// Checks that no name in the tree holds a `:`, and names the first that does.
    pub fn validate(&self) -> (r: Result<(), ErrorKind>)
        ensures
            match first_bad_name(self@) {
                None => r is Ok,
                Some(name) => r is Err && r->Err_0@ == ErrorView::InvalidAccountName(name),
            },
        decreases self,
    {
        match self {
            Accounts::Tree(children) => {
                let ghost c = entries_view(children@);
                let mut i: usize = 0;
                proof {
                    lemma_tree_view(*children);
                }
                while i < children.len()
                    invariant
                        i <= children@.len(),
                        self is Tree && self->Tree_0 == *children,
                        c == entries_view(children@),
                        self@ == Ledger::Tree(c),
                        first_bad_name_from(c, 0) == first_bad_name_from(c, i as int),
                    decreases children@.len() - i,
                {
                    if has_colon(children[i].0.as_str()) {
                        return Err(ErrorKind::InvalidAccountName(children[i].0.clone()));
                    }
                    match children[i].1.validate() {
                        Ok(_) => {},
                        Err(error) => {
                            return Err(error);
                        },
                    }
                    i = i + 1;
                }
                Ok(())
            },
            Accounts::Leaf(_) => Ok(()),
        }
    }

    /// The current value of every leaf account, by path: the balance of a
    /// simple account, the value of the formula of a derived one.
    pub fn eval(&self) -> (r: Result<Balances, ErrorKind>)
        ensures
            match evaluated(self@) {
                Ok(entries) => r is Ok && r->Ok_0@ == entries,
                Err(error) => r is Err && r->Err_0@ == error,
            },
    {
        let names = self.paths();
        let ghost paths = texts(names@);
        let mut entries: Vec<(String, Money)> = Vec::new();
        let mut i: usize = 0;
        proof {
            assert(paths.take(0) =~= Seq::<Seq<char>>::empty());
            assert(balance_entries(entries@) =~= Seq::<(Seq<char>, int)>::empty());
        }
        while i < names.len()
            invariant
                i <= names@.len(),
                paths == texts(names@),
                paths == leaf_paths(self@, Seq::empty()),
                balances_at(self@, paths.take(i as int)) == Ok::<Seq<(Seq<char>, int)>, ErrorView>(
                    balance_entries(entries@),
                ),
            decreases names@.len() - i,
        {
            let value = match self.balance(names[i].as_str()) {
                Ok(value) => value,
                Err(error) => {
                    proof {
                        lemma_balances_error(self@, paths, i as int);
                    }
                    return Err(error);
                },
            };
            proof {
                assert(paths.take(i + 1).drop_last() =~= paths.take(i as int));
                assert(balance_entries(entries@.push((names@[i as int], value)))
                    =~= balance_entries(entries@).push((paths[i as int], value@)));
            }
            entries.push((names[i].clone(), value));
            i = i + 1;
        }
        proof {
            assert(paths.take(i as int) =~= paths);
        }
        Ok(Balances { entries })
    }

    /// Opens a simple account of balance zero at `path`, where the path names
    /// no node yet.
    fn open_account(&mut self, path: &String) -> (r: Result<(), ErrorKind>)
        ensures
            match opened(old(self)@, path@) {
                Ok(tree) => r is Ok && final(self)@ == tree,
                Err(error) => r is Err && r->Err_0@ == error && final(self)@ == old(self)@,
            },
    {
        let missing = match self.get(path.as_str()) {
            Ok(_) => false,
            Err(_) => true,
        };
        if missing {
            self.create_account(
                path.clone(),
                Account::Simple(SimpleAccount { amount: Money::from_i32(0) }),
            )
        } else {
            Ok(())
        }
    }

    /// Applies a transaction: opens the two accounts where they are missing,
    /// resolves the amount, takes it from the one account and adds it to the
    /// other. Where any step fails the tree is left as it was.
    pub fn apply(&mut self, transaction: Transaction) -> (r: Result<(), ErrorKind>)
        ensures
            match applied(old(self)@, transaction@) {
                Ok(tree) => r is Ok && final(self)@ == tree,
                Err(error) => r is Err && r->Err_0@ == error && final(self)@ == old(self)@,
            },
            well_named(old(self)@) ==> well_named(final(self)@),
    {
        proof {
            if well_named(self@) && applied(self@, transaction@) is Ok {
                lemma_applied_well_named(self@, transaction@);
            }
        }
        let mut work = self.clone();
        match work.open_account(&transaction.from) {
            Ok(_) => {},
            Err(error) => {
                return Err(error);
            },
        }
        match work.open_account(&transaction.to) {
            Ok(_) => {},
            Err(error) => {
                return Err(error);
            },
        }
        let amount = match transaction.eval_from_amount(&work) {
            Ok(amount) => amount,
            Err(error) => {
                return Err(error);
            },
        };
        match work.withdraw(transaction.from, amount.clone()) {
            Ok(_) => {},
            Err(error) => {
                return Err(error);
            },
        }
        match work.deposit(transaction.to, amount) {
            Ok(_) => {},
            Err(error) => {
                return Err(error);
            },
        }
        *self = work;
        Ok(())
    }

    /// The current value of the leaf account at `path`.
    pub fn balance(&self, path: &str) -> (r: Result<Money, ErrorKind>)
        ensures
            match balance_at(self@, path@) {
                Ok(value) => r is Ok && r->Ok_0@ == value,
                Err(error) => r is Err && r->Err_0@ == error,
            },
    {
        let node = match self.get(path) {
            Ok(node) => node,
            Err(error) => {
                return Err(error);
            },
        };
        match node {
            Accounts::Tree(children) => {
                proof {
                    lemma_tree_view(*children);
                }
                Err(ErrorKind::UnwrapNode)
            },
            Accounts::Leaf(Account::Simple(simple)) => Ok(simple.amount.clone()),
            Accounts::Leaf(Account::Derived(derived)) => evaluate(&derived.expression, self),
        }
    }
}

/// Whether folding `f` over the listed accounts, from `init` on, can give
/// `result`: each account is handed to `f` with its path and with what the
/// accounts before it gave.
pub open spec fn folds_to<B, F: Fn(B, &str, Account) -> B>(
    f: F,
    init: B,
    accounts: Seq<(Seq<char>, AccountView)>,
    result: B,
) -> bool
    decreases accounts.len(),
{
    if accounts.len() == 0 {
        result == init
    } else {
        exists|before: B, path: &str, account: Account|
            {
                &&& folds_to(f, init, accounts.drop_last(), before)
                &&& path@ == accounts.last().0
                &&& account@ == accounts.last().1
                &&& #[trigger] f.ensures((before, path, account), result)
            }
    }
}

/// A fold over one list of accounts and then over another, from where the
/// first ended, is a fold over the two lists on end.
pub proof fn lemma_folds_on<B, F: Fn(B, &str, Account) -> B>(
    f: F,
    init: B,
    first: Seq<(Seq<char>, AccountView)>,
    middle: B,
    second: Seq<(Seq<char>, AccountView)>,
    result: B,
)
    requires
        folds_to(f, init, first, middle),
        folds_to(f, middle, second, result),
    ensures
        folds_to(f, init, first + second, result),
    decreases second.len(),
{
    if second.len() == 0 {
        assert(first + second =~= first);
    } else {
        let (before, path, account): (B, &str, Account) = choose|
            before: B,
            path: &str,
            account: Account,
        |
            {
                &&& folds_to(f, middle, second.drop_last(), before)
                &&& path@ == second.last().0
                &&& account@ == second.last().1
                &&& #[trigger] f.ensures((before, path, account), result)
            };
        lemma_folds_on(f, init, first, middle, second.drop_last(), before);
        assert((first + second).drop_last() =~= first + second.drop_last());
        assert((first + second).last() == second.last());
    }
}

/// The named children in the opposite order.
fn reversed(children: Vec<(String, Accounts)>) -> (stack: Vec<(String, Accounts)>)
    ensures
        stack@.len() == children@.len(),
        forall|i: int|
            0 <= i < stack@.len() ==> stack@[i] == children@[children@.len() - 1 - i],
{
    let mut input = children;
    let mut stack: Vec<(String, Accounts)> = Vec::new();
    let ghost n = children@.len();
    while input.len() > 0
        invariant
            n == children@.len(),
            input@.len() + stack@.len() == n,
            forall|i: int| 0 <= i < input@.len() ==> input@[i] == children@[i],
            forall|i: int| 0 <= i < stack@.len() ==> stack@[i] == children@[n - 1 - i],
        decreases input@.len(),
    {
        let entry = input.pop().unwrap();
        stack.push(entry);
    }
    stack
}

/// The texts of a list of strings.
pub open spec fn texts(strings: Seq<String>) -> Seq<Seq<char>> {
    Seq::new(strings.len(), |i: int| strings[i]@)
}

/// The model of a list of balances by path.
pub open spec fn balance_entries(entries: Seq<(String, Money)>) -> Seq<(Seq<char>, int)> {
    Seq::new(entries.len(), |i: int| (entries[i].0@, entries[i].1@))
}

/// The current values of the leaf accounts, by path, in the order of the tree.
#[derive(Debug, PartialEq, Eq)]
pub struct Balances {
    pub entries: Vec<(String, Money)>,
}

impl View for Balances {
    type V = Seq<(Seq<char>, int)>;

    open spec fn view(&self) -> Seq<(Seq<char>, int)> {
        balance_entries(self.entries@)
    }
}

impl Balances {
    /// The value listed for `path`.
    pub fn get(&self, path: &str) -> (r: Option<&Money>)
        ensures
            match r {
                Some(value) => listed(self@, path@) == Some(value@),
                None => listed(self@, path@) is None,
            },
    {
        let name = path.to_owned();
        let mut i: usize = 0;
        proof {
            assert(self@.skip(0) =~= self@);
        }
        while i < self.entries.len()
            invariant
                i <= self.entries@.len(),
                name@ == path@,
                listed(self@, path@) == listed(self@.skip(i as int), path@),
            decreases self.entries@.len() - i,
        {
            if self.entries[i].0 == name {
                return Some(&self.entries[i].1);
            }
            proof {
                assert(self@.skip(i as int).drop_first() =~= self@.skip(i + 1));
            }
            i = i + 1;
        }
        None
    }
}

/// Whether the text holds a `:`.
pub fn has_colon(text: &str) -> (b: bool)
    ensures
        b == colon(text@) is Some,
{
    let chars = chars_of(text);
    let mut i: usize = 0;
    while i < chars.len() && chars[i] != ':'
        invariant
            i <= chars@.len(),
            colon_from(chars@, 0) == colon_from(chars@, i as int),
        decreases chars@.len() - i,
    {
        i = i + 1;
    }
    i < chars.len()
}

/// The path of the child `name` of the node at `prefix`.
pub fn join_path(prefix: &str, name: &String) -> (path: String)
    ensures
        path@ == child_path(prefix@, name@),
{
    if prefix.is_empty() {
        name.clone()
    } else {
        let mut path = prefix.to_owned();
        proof {
            reveal_strlit(":");
            assert(":"@ =~= seq![':']);
        }
        path.append(":");
        path.append(name.as_str());
        path
    }
}

/// The value of an expression over the accounts under `root`.
pub fn evaluate(expr: &Expr, root: &Accounts) -> (r: Result<Money, ErrorKind>)
    ensures
        match value_of(expr@, root@) {
            Ok(value) => r is Ok && r->Ok_0@ == value,
            Err(error) => r is Err && r->Err_0@ == error,
        },
    decreases expr,
{
    match expr {
        Expr::Id(name) => match root.get(name.as_str()) {
            Ok(node) => Ok(node.sum()),
            Err(error) => Err(error),
        },
        Expr::Add(left, right) => match evaluate(left, root) {
            Ok(a) => match evaluate(right, root) {
                Ok(b) => Ok(a.add(b)),
                Err(error) => Err(error),
            },
            Err(error) => Err(error),
        },
        Expr::Sub(left, right) => match evaluate(left, root) {
            Ok(a) => match evaluate(right, root) {
                Ok(b) => Ok(a.sub(b)),
                Err(error) => Err(error),
            },
            Err(error) => Err(error),
        },
    }
}

} // verus!
