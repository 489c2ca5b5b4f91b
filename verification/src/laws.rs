//! What holds of the account tree whatever accounts it holds.

use crate::addressing::{addressable, distinct_names};
use crate::errors::ErrorView;
use crate::expression::ExprView;
use crate::ledger::{
    applied, colon, created, deposited, evaluated, lemma_colon, lemma_position, listed, lookup,
    opened, position, position_from, resolved, total, total_all, value_of, AccountView,
    AmountView, Children, Ledger, TransactionView,
};
use crate::money::portion;
use vstd::prelude::*;

verus! {

/// The way from a node to the node that `path` names below it: the index of
/// the child taken at each tree node. Two paths that resolve name the same
/// node exactly when their ways are the same.
pub open spec fn route(l: Ledger, path: Seq<char>) -> Seq<int>
    decreases l,
{
    match l {
        Ledger::Tree(c) => match colon(path) {
            Some(k) => match position(c, path.take(k)) {
                Some(i) => {
                    proof {
                        lemma_position(c, path.take(k));
                    }
                    seq![i] + route(c[i].1, path.skip(k + 1))
                },
                None => Seq::empty(),
            },
            None => match position(c, path) {
                Some(i) => seq![i],
                None => Seq::empty(),
            },
        },
        Ledger::Leaf(_) => Seq::empty(),
    }
}

/// The balance of the simple account that `path` names, if it names one.
pub open spec fn simple_at(l: Ledger, path: Seq<char>) -> Option<int> {
    match lookup(l, path) {
        Ok(Ledger::Leaf(AccountView::Simple(balance))) => Some(balance),
        _ => None,
    }
}

/// Children with the same names in the same places are found under the same
/// names.
pub proof fn lemma_position_by_names(c: Children, d: Children, name: Seq<char>, i: int)
    requires
        0 <= i,
        c.len() == d.len(),
        forall|j: int| 0 <= j < c.len() ==> c[j].0 == d[j].0,
    ensures
        position_from(c, name, i) == position_from(d, name, i),
    decreases c.len() - i,
{
    if i < c.len() && c[i].0 != name {
        lemma_position_by_names(c, d, name, i + 1);
    }
}

/// Replacing one child changes the sum by the difference of the child's sums.
pub proof fn lemma_total_update(c: Children, i: int, entry: (Seq<char>, Ledger))
    requires
        0 <= i < c.len(),
    ensures
        total_all(c.update(i, entry)) == total_all(c) - total(c[i].1) + total(entry.1),
    decreases c.len(),
{
    let d = c.update(i, entry);
    if i == c.len() - 1 {
        assert(d.drop_last() =~= c.drop_last());
    } else {
        assert(d.drop_last() =~= c.drop_last().update(i, entry));
        lemma_total_update(c.drop_last(), i, entry);
    }
}

/// A child added at the end adds its sum.
pub proof fn lemma_total_push(c: Children, entry: (Seq<char>, Ledger))
    ensures
        total_all(c.push(entry)) == total_all(c) + total(entry.1),
{
    assert(c.push(entry).drop_last() =~= c);
}

/// A deposit to a simple account changes the balance of that account by the
/// amount, and with it the sum of the tree; it leaves the way to the account
/// as it was; and a deposit of the opposite amount undoes it.
pub proof fn lemma_deposit_at_account(l: Ledger, path: Seq<char>, amount: int)
    requires
        simple_at(l, path) is Some,
    ensures
        deposited(l, path, amount) is Ok,
        simple_at(deposited(l, path, amount)->Ok_0, path) == Some(simple_at(l, path)->0 + amount),
        total(deposited(l, path, amount)->Ok_0) == total(l) + amount,
        route(deposited(l, path, amount)->Ok_0, path) == route(l, path),
        deposited(deposited(l, path, amount)->Ok_0, path, -amount) == Ok::<Ledger, ErrorView>(l),
    decreases l,
{
    match l {
        Ledger::Tree(c) => {
            lemma_colon(path);
            match colon(path) {
                Some(k) => {
                    let name = path.take(k);
                    let rest = path.skip(k + 1);
                    lemma_position(c, name);
                    let i = position(c, name)->0;
                    lemma_deposit_at_account(c[i].1, rest, amount);
                    let child = deposited(c[i].1, rest, amount)->Ok_0;
                    let d = c.update(i, (c[i].0, child));
                    lemma_position_by_names(c, d, name, 0);
                    lemma_total_update(c, i, (c[i].0, child));
                    assert(d.update(i, (d[i].0, c[i].1)) =~= c);
                },
                None => {
                    lemma_position(c, path);
                    let i = position(c, path)->0;
                    let balance = simple_at(l, path)->0;
                    let child = Ledger::Leaf(AccountView::Simple(balance + amount));
                    assert(c[i].1 == Ledger::Leaf(AccountView::Simple(balance)));
                    assert(deposited(c[i].1, path, amount) == Ok::<Ledger, ErrorView>(child));
                    assert(deposited(child, path, -amount) == Ok::<Ledger, ErrorView>(c[i].1));
                    let d = c.update(i, (c[i].0, child));
                    lemma_position_by_names(c, d, path, 0);
                    lemma_total_update(c, i, (c[i].0, child));
                    assert(d.update(i, (d[i].0, c[i].1)) =~= c);
                },
            }
        },
        Ledger::Leaf(_) => {},
    }
}

/// A deposit followed by a withdrawal of the same amount leaves the tree, and
/// so the balance at the path, as it was: for every path that names a simple
/// account.
pub proof fn lemma_deposit_then_withdraw(l: Ledger, path: Seq<char>, amount: int)
    requires
        simple_at(l, path) is Some,
    ensures
        deposited(l, path, amount) is Ok,
        deposited(deposited(l, path, amount)->Ok_0, path, -amount) == Ok::<Ledger, ErrorView>(l),
{
    lemma_deposit_at_account(l, path, amount);
}

/// Whether the way `a` is the beginning of the way `b`: the node at the end of
/// `a` is the node at the end of `b` or stands above it.
pub open spec fn leads_to(a: Seq<int>, b: Seq<int>) -> bool {
    a.len() <= b.len() && b.take(a.len() as int) == a
}

/// No simple account stands above another: where the way to one leads to
/// another, the two are the same.
pub proof fn lemma_accounts_apart(l: Ledger, p: Seq<char>, q: Seq<char>)
    requires
        simple_at(l, p) is Some,
        simple_at(l, q) is Some,
        leads_to(route(l, q), route(l, p)),
    ensures
        route(l, q) == route(l, p),
    decreases l,
{
    match l {
        Ledger::Tree(c) => {
            lemma_colon(p);
            lemma_colon(q);
            let rp = route(l, p);
            let rq = route(l, q);
            match (colon(p), colon(q)) {
                (Some(kp), Some(kq)) => {
                    lemma_position(c, p.take(kp));
                    lemma_position(c, q.take(kq));
                    let ip = position(c, p.take(kp))->0;
                    let iq = position(c, q.take(kq))->0;
                    let tp = route(c[ip].1, p.skip(kp + 1));
                    let tq = route(c[iq].1, q.skip(kq + 1));
                    assert(rp.take(rq.len() as int)[0] == rq[0]);
                    assert(ip == iq);
                    assert(tp.take(tq.len() as int) =~= rp.take(rq.len() as int).drop_first());
                    assert(rq.drop_first() =~= tq);
                    lemma_accounts_apart(c[ip].1, p.skip(kp + 1), q.skip(kq + 1));
                },
                (None, Some(kq)) => {
                    lemma_position(c, p);
                    lemma_position(c, q.take(kq));
                    let iq = position(c, q.take(kq))->0;
                    let tq = route(c[iq].1, q.skip(kq + 1));
                    assert(rq.len() == 1 + tq.len());
                    assert(tq.len() == 0);
                    assert(rp.take(rq.len() as int)[0] == rq[0]);
                    assert(rq =~= rp);
                },
                (Some(kp), None) => {
                    lemma_position(c, p.take(kp));
                    lemma_position(c, q);
                    let ip = position(c, p.take(kp))->0;
                    let iq = position(c, q)->0;
                    assert(rp.take(rq.len() as int)[0] == rq[0]);
                    assert(ip == iq);
                    assert(c[ip].1 is Leaf);
                    assert(route(c[ip].1, p.skip(kp + 1)) =~= Seq::<int>::empty());
                    assert(rq =~= rp);
                },
                (None, None) => {
                    lemma_position(c, p);
                    lemma_position(c, q);
                    assert(rp.take(rq.len() as int)[0] == rq[0]);
                    assert(rq =~= rp);
                },
            }
        },
        Ledger::Leaf(_) => {},
    }
}

/// A deposit to a simple account leaves every node as it was that does not
/// stand on the way to the account, and the way to it.
pub proof fn lemma_deposit_elsewhere(l: Ledger, p: Seq<char>, amount: int, q: Seq<char>)
    requires
        simple_at(l, p) is Some,
        lookup(l, q) is Ok,
        !leads_to(route(l, q), route(l, p)),
    ensures
        deposited(l, p, amount) is Ok,
        lookup(deposited(l, p, amount)->Ok_0, q) == lookup(l, q),
        route(deposited(l, p, amount)->Ok_0, q) == route(l, q),
    decreases l,
{
    lemma_deposit_at_account(l, p, amount);
    match l {
        Ledger::Tree(c) => {
            lemma_colon(p);
            lemma_colon(q);
            let rp = route(l, p);
            let rq = route(l, q);
            let after = deposited(l, p, amount)->Ok_0;
            let d = after->Tree_0;
            let ip = rp[0];
            match colon(p) {
                Some(kp) => {
                    lemma_position(c, p.take(kp));
                },
                None => {
                    lemma_position(c, p);
                },
            }
            assert(d.len() == c.len());
            assert(forall|j: int| 0 <= j < c.len() ==> c[j].0 == d[j].0);
            assert(forall|j: int| 0 <= j < c.len() && j != ip ==> c[j] == d[j]);
            match colon(q) {
                Some(kq) => {
                    let name = q.take(kq);
                    let rest = q.skip(kq + 1);
                    lemma_position(c, name);
                    lemma_position_by_names(c, d, name, 0);
                    let iq = position(c, name)->0;
                    if iq == ip {
                        let tq = route(c[iq].1, rest);
                        match colon(p) {
                            Some(kp) => {
                                let tp = route(c[ip].1, p.skip(kp + 1));
                                if leads_to(tq, tp) {
                                    assert(rp.take(rq.len() as int) =~= rq);
                                }
                                lemma_deposit_elsewhere(c[ip].1, p.skip(kp + 1), amount, rest);
                            },
                            None => {
                                assert(c[ip].1 is Leaf);
                                assert(tq =~= Seq::<int>::empty());
                                assert(rp.take(rq.len() as int) =~= rq);
                            },
                        }
                    }
                },
                None => {
                    lemma_position(c, q);
                    lemma_position_by_names(c, d, q, 0);
                    let iq = position(c, q)->0;
                    if iq == ip {
                        assert(rp.take(rq.len() as int) =~= rq);
                    }
                },
            }
        },
        Ledger::Leaf(_) => {
            assert(route(l, p).take(0) =~= route(l, q));
        },
    }
}

/// A deposit to a simple account changes the sum of every node on the way to
/// the account by the amount.
pub proof fn lemma_deposit_below(l: Ledger, p: Seq<char>, amount: int, q: Seq<char>)
    requires
        simple_at(l, p) is Some,
        lookup(l, q) is Ok,
        leads_to(route(l, q), route(l, p)),
    ensures
        deposited(l, p, amount) is Ok,
        lookup(deposited(l, p, amount)->Ok_0, q) is Ok,
        total(lookup(deposited(l, p, amount)->Ok_0, q)->Ok_0) == total(lookup(l, q)->Ok_0) + amount,
        route(deposited(l, p, amount)->Ok_0, q) == route(l, q),
        simple_at(l, q) is Some ==> simple_at(deposited(l, p, amount)->Ok_0, q) == Some(
            simple_at(l, q)->0 + amount,
        ),
    decreases l,
{
    lemma_deposit_at_account(l, p, amount);
    match l {
        Ledger::Tree(c) => {
            lemma_colon(p);
            lemma_colon(q);
            let rp = route(l, p);
            let rq = route(l, q);
            let after = deposited(l, p, amount)->Ok_0;
            let d = after->Tree_0;
            let ip = rp[0];
            match colon(p) {
                Some(kp) => {
                    lemma_position(c, p.take(kp));
                    lemma_deposit_at_account(c[ip].1, p.skip(kp + 1), amount);
                    assert(d[ip].1 == deposited(c[ip].1, p.skip(kp + 1), amount)->Ok_0);
                },
                None => {
                    lemma_position(c, p);
                    let balance = simple_at(l, p)->0;
                    assert(c[ip].1 == Ledger::Leaf(AccountView::Simple(balance)));
                    assert(deposited(c[ip].1, p, amount) == Ok::<Ledger, ErrorView>(
                        Ledger::Leaf(AccountView::Simple(balance + amount)),
                    ));
                    assert(d[ip].1 == Ledger::Leaf(AccountView::Simple(balance + amount)));
                },
            }
            assert(d.len() == c.len());
            assert(forall|j: int| 0 <= j < c.len() ==> c[j].0 == d[j].0);
            assert(total(d[ip].1) == total(c[ip].1) + amount);
            match colon(q) {
                Some(kq) => {
                    let name = q.take(kq);
                    let rest = q.skip(kq + 1);
                    lemma_position(c, name);
                    lemma_position_by_names(c, d, name, 0);
                    let iq = position(c, name)->0;
                    let tq = route(c[iq].1, rest);
                    assert(rp.take(rq.len() as int)[0] == rq[0]);
                    assert(iq == ip);
                    match colon(p) {
                        Some(kp) => {
                            let tp = route(c[ip].1, p.skip(kp + 1));
                            assert(tp.take(tq.len() as int) =~= rp.take(
                                rq.len() as int,
                            ).drop_first());
                            assert(rq.drop_first() =~= tq);
                            lemma_deposit_below(c[ip].1, p.skip(kp + 1), amount, rest);
                        },
                        None => {
                            assert(c[ip].1 is Leaf);
                            assert(rest.len() == 0);
                            assert(lookup(d[ip].1, rest) == Ok::<Ledger, ErrorView>(d[ip].1));
                            assert(lookup(c[ip].1, rest) == Ok::<Ledger, ErrorView>(c[ip].1));
                            assert(route(d[ip].1, rest) =~= route(c[ip].1, rest));
                        },
                    }
                },
                None => {
                    lemma_position(c, q);
                    lemma_position_by_names(c, d, q, 0);
                    let iq = position(c, q)->0;
                    assert(rp.take(rq.len() as int)[0] == rq[0]);
                    assert(iq == ip);
                },
            }
        },
        Ledger::Leaf(_) => {},
    }
}

/// Creating an account that stores nothing leaves the sum of the tree as it was.
pub proof fn lemma_created_total(l: Ledger, path: Seq<char>, account: AccountView)
    requires
        crate::ledger::stored(account) == 0,
        created(l, path, account) is Ok,
    ensures
        total(created(l, path, account)->Ok_0) == total(l),
    decreases path.len(),
{
    match l {
        Ledger::Tree(c) => {
            lemma_colon(path);
            match colon(path) {
                Some(k) => {
                    let name = path.take(k);
                    let rest = path.skip(k + 1);
                    lemma_position(c, name);
                    match position(c, name) {
                        Some(i) => {
                            lemma_created_total(c[i].1, rest, account);
                            let child = created(c[i].1, rest, account)->Ok_0;
                            lemma_total_update(c, i, (c[i].0, child));
                        },
                        None => {
                            let none = Ledger::Tree(Seq::empty());
                            lemma_created_total(none, rest, account);
                            let child = created(none, rest, account)->Ok_0;
                            lemma_total_push(c, (name, child));
                            assert(total(none) == 0);
                        },
                    }
                },
                None => {
                    lemma_total_push(c, (path, Ledger::Leaf(account)));
                },
            }
        },
        Ledger::Leaf(_) => {},
    }
}

/// Opening an account leaves the sum of the tree as it was.
pub proof fn lemma_opened_total(l: Ledger, path: Seq<char>)
    requires
        opened(l, path) is Ok,
    ensures
        total(opened(l, path)->Ok_0) == total(l),
{
    if lookup(l, path) is Err {
        lemma_created_total(l, path, AccountView::Simple(0));
    }
}

/// The accounts as a transaction finds them once its two accounts are open.
pub open spec fn prepared(l: Ledger, t: TransactionView) -> Ledger {
    opened(opened(l, t.from)->Ok_0, t.to)->Ok_0
}

/// The amount in millionths that a transaction moves: what its amount comes
/// to once its two accounts are open.
pub open spec fn moved(l: Ledger, t: TransactionView) -> int {
    resolved(t.amount, prepared(l, t), t.from)->Ok_0
}

/// What a transaction moves: a fixed amount is moved as it is; a percentage
/// moves that share, cut to whole millionths, of the value that the debited
/// account is listed with before the transaction changes any balance.
pub proof fn lemma_amount_moved(l: Ledger, t: TransactionView)
    requires
        applied(l, t) is Ok,
    ensures
        t.amount matches AmountView::Money(amount) ==> moved(l, t) == amount,
        t.amount matches AmountView::Percent(rate) ==> {
            &&& evaluated(prepared(l, t)) is Ok
            &&& listed(evaluated(prepared(l, t))->Ok_0, t.from) is Some
            &&& moved(l, t) == portion(listed(evaluated(prepared(l, t))->Ok_0, t.from)->0, rate)
        },
{
}

/// Money is conserved. A transaction between two simple accounts, of a fixed
/// amount or of a percentage, leaves the sum of the whole tree as it was: also
/// where its two paths name one and the same account.
pub proof fn lemma_apply_conserves_sum(l: Ledger, t: TransactionView)
    requires
        applied(l, t) is Ok,
        simple_at(prepared(l, t), t.from) is Some,
        simple_at(prepared(l, t), t.to) is Some,
    ensures
        total(applied(l, t)->Ok_0) == total(l),
{
    let amount = moved(l, t);
    let with_from = opened(l, t.from)->Ok_0;
    let ready = prepared(l, t);
    lemma_opened_total(l, t.from);
    lemma_opened_total(with_from, t.to);
    lemma_deposit_at_account(ready, t.from, -amount);
    let debited = deposited(ready, t.from, -amount)->Ok_0;
    if leads_to(route(ready, t.to), route(ready, t.from)) {
        lemma_deposit_below(ready, t.from, -amount, t.to);
    } else {
        lemma_deposit_elsewhere(ready, t.from, -amount, t.to);
    }
    lemma_deposit_at_account(debited, t.to, amount);
}

/// A transaction between two different simple accounts, of a fixed amount or
/// of a percentage, takes what it moves from the balance of the one and adds
/// it to the balance of the other, and leaves the sum of the whole tree as it
/// was.
pub proof fn lemma_apply_conserves(l: Ledger, t: TransactionView)
    requires
        applied(l, t) is Ok,
        simple_at(prepared(l, t), t.from) is Some,
        simple_at(prepared(l, t), t.to) is Some,
        route(prepared(l, t), t.from) != route(prepared(l, t), t.to),
    ensures
        simple_at(applied(l, t)->Ok_0, t.from) == Some(
            simple_at(prepared(l, t), t.from)->0 - moved(l, t),
        ),
        simple_at(applied(l, t)->Ok_0, t.to) == Some(
            simple_at(prepared(l, t), t.to)->0 + moved(l, t),
        ),
        total(applied(l, t)->Ok_0) == total(l),
{
    let amount = moved(l, t);
    let ready = prepared(l, t);
    lemma_apply_conserves_sum(l, t);
    lemma_deposit_at_account(ready, t.from, -amount);
    let debited = deposited(ready, t.from, -amount)->Ok_0;
    if leads_to(route(ready, t.to), route(ready, t.from)) {
        lemma_accounts_apart(ready, t.from, t.to);
    }
    if leads_to(route(ready, t.from), route(ready, t.to)) {
        lemma_accounts_apart(ready, t.to, t.from);
    }
    lemma_deposit_elsewhere(ready, t.from, -amount, t.to);
    lemma_deposit_at_account(debited, t.to, amount);
    lemma_deposit_elsewhere(debited, t.to, amount, t.from);
}

/// Money is conserved below every node that stands above both accounts of a
/// transaction, the least such node among them: the sum of the balances
/// stored under the node is the same after the transaction.
pub proof fn lemma_apply_conserves_above(l: Ledger, t: TransactionView, q: Seq<char>)
    requires
        applied(l, t) is Ok,
        simple_at(prepared(l, t), t.from) is Some,
        simple_at(prepared(l, t), t.to) is Some,
        route(prepared(l, t), t.from) != route(prepared(l, t), t.to),
        lookup(prepared(l, t), q) is Ok,
        leads_to(route(prepared(l, t), q), route(prepared(l, t), t.from)),
        leads_to(route(prepared(l, t), q), route(prepared(l, t), t.to)),
    ensures
        lookup(applied(l, t)->Ok_0, q) is Ok,
        total(lookup(applied(l, t)->Ok_0, q)->Ok_0) == total(lookup(prepared(l, t), q)->Ok_0),
{
    let amount = moved(l, t);
    let ready = prepared(l, t);
    lemma_deposit_at_account(ready, t.from, -amount);
    let debited = deposited(ready, t.from, -amount)->Ok_0;
    if leads_to(route(ready, t.to), route(ready, t.from)) {
        lemma_accounts_apart(ready, t.from, t.to);
    }
    lemma_deposit_elsewhere(ready, t.from, -amount, t.to);
    lemma_deposit_below(ready, t.from, -amount, q);
    lemma_deposit_below(debited, t.to, amount, q);
}

/// A derived account that is defined as the sum of two simple accounts is
/// worth the sum of their balances, and still is after a deposit to either.
pub proof fn lemma_derived_sum_tracks(l: Ledger, p: Seq<char>, q: Seq<char>, amount: int)
    requires
        simple_at(l, p) is Some,
        simple_at(l, q) is Some,
        route(l, p) != route(l, q),
    ensures
        value_of(ExprView::Add(Box::new(ExprView::Id(p)), Box::new(ExprView::Id(q))), l) == Ok::<
            int,
            ErrorView,
        >(simple_at(l, p)->0 + simple_at(l, q)->0),
        deposited(l, p, amount) is Ok,
        value_of(
            ExprView::Add(Box::new(ExprView::Id(p)), Box::new(ExprView::Id(q))),
            deposited(l, p, amount)->Ok_0,
        ) == Ok::<int, ErrorView>(simple_at(l, p)->0 + amount + simple_at(l, q)->0),
        deposited(l, q, amount) is Ok,
        value_of(
            ExprView::Add(Box::new(ExprView::Id(p)), Box::new(ExprView::Id(q))),
            deposited(l, q, amount)->Ok_0,
        ) == Ok::<int, ErrorView>(simple_at(l, p)->0 + simple_at(l, q)->0 + amount),
        simple_at(deposited(l, p, amount)->Ok_0, q) is Some,
        simple_at(deposited(l, q, amount)->Ok_0, p) is Some,
        route(deposited(l, p, amount)->Ok_0, p) != route(deposited(l, p, amount)->Ok_0, q),
        route(deposited(l, q, amount)->Ok_0, p) != route(deposited(l, q, amount)->Ok_0, q),
{
    let e = ExprView::Add(Box::new(ExprView::Id(p)), Box::new(ExprView::Id(q)));
    reveal_with_fuel(value_of, 3);
    if leads_to(route(l, q), route(l, p)) {
        lemma_accounts_apart(l, p, q);
    }
    if leads_to(route(l, p), route(l, q)) {
        lemma_accounts_apart(l, q, p);
    }
    lemma_deposit_at_account(l, p, amount);
    lemma_deposit_elsewhere(l, p, amount, q);
    lemma_deposit_at_account(l, q, amount);
    lemma_deposit_elsewhere(l, q, amount, p);
}

/// Whether the names of the tree are sound: under every node the names of
/// the children differ from one another, and no name holds a `:`.
pub open spec fn well_named(l: Ledger) -> bool
    decreases l,
{
    match l {
        Ledger::Tree(c) => distinct_names(c) && forall|i: int|
            0 <= i < c.len() ==> colon((#[trigger] c[i]).0) is None && well_named(c[i].1),
        Ledger::Leaf(_) => true,
    }
}

/// The segment before the first `:` of a path holds no `:`.
pub proof fn lemma_first_segment(path: Seq<char>)
    requires
        colon(path) is Some,
    ensures
        colon(path.take(colon(path)->0)) is None,
{
    lemma_colon(path);
    lemma_colon(path.take(colon(path)->0));
}

/// Children stay well named when one of them is replaced by a well-named
/// node under the same name.
pub proof fn lemma_well_named_update(c: Children, i: int, child: Ledger)
    requires
        well_named(Ledger::Tree(c)),
        0 <= i < c.len(),
        well_named(child),
    ensures
        well_named(Ledger::Tree(c.update(i, (c[i].0, child)))),
{
    let d = c.update(i, (c[i].0, child));
    assert forall|j: int| 0 <= j < d.len() implies colon((#[trigger] d[j]).0) is None
        && well_named(d[j].1) by {
        assert(colon(c[j].0) is None && well_named(c[j].1));
    }
}

/// Children stay well named when a well-named node is added under a name
/// that holds no `:` and that none of them has.
pub proof fn lemma_well_named_push(c: Children, name: Seq<char>, child: Ledger)
    requires
        well_named(Ledger::Tree(c)),
        position(c, name) is None,
        colon(name) is None,
        well_named(child),
    ensures
        well_named(Ledger::Tree(c.push((name, child)))),
{
    let d = c.push((name, child));
    lemma_position(c, name);
    assert forall|j: int| 0 <= j < d.len() implies colon((#[trigger] d[j]).0) is None
        && well_named(d[j].1) by {
        if j < c.len() {
            assert(colon(c[j].0) is None && well_named(c[j].1));
        }
    }
}

/// Creating an account keeps the names of the tree sound.
pub proof fn lemma_created_well_named(l: Ledger, path: Seq<char>, account: AccountView)
    requires
        well_named(l),
        created(l, path, account) is Ok,
    ensures
        well_named(created(l, path, account)->Ok_0),
    decreases path.len(),
{
    match l {
        Ledger::Tree(c) => {
            lemma_colon(path);
            match colon(path) {
                Some(k) => {
                    let name = path.take(k);
                    let rest = path.skip(k + 1);
                    lemma_first_segment(path);
                    lemma_position(c, name);
                    match position(c, name) {
                        Some(i) => {
                            assert(colon(c[i].0) is None && well_named(c[i].1));
                            lemma_created_well_named(c[i].1, rest, account);
                            lemma_well_named_update(c, i, created(c[i].1, rest, account)->Ok_0);
                        },
                        None => {
                            let none = Ledger::Tree(Seq::empty());
                            lemma_created_well_named(none, rest, account);
                            lemma_well_named_push(c, name, created(none, rest, account)->Ok_0);
                        },
                    }
                },
                None => {
                    lemma_well_named_push(c, path, Ledger::Leaf(account));
                },
            }
        },
        Ledger::Leaf(_) => {},
    }
}

/// A deposit keeps the names of the tree sound.
pub proof fn lemma_deposited_well_named(l: Ledger, path: Seq<char>, amount: int)
    requires
        well_named(l),
        deposited(l, path, amount) is Ok,
    ensures
        well_named(deposited(l, path, amount)->Ok_0),
    decreases path.len(), l,
{
    match l {
        Ledger::Tree(c) => {
            lemma_colon(path);
            match colon(path) {
                Some(k) => {
                    let name = path.take(k);
                    let rest = path.skip(k + 1);
                    lemma_first_segment(path);
                    lemma_position(c, name);
                    match position(c, name) {
                        Some(i) => {
                            assert(colon(c[i].0) is None && well_named(c[i].1));
                            lemma_deposited_well_named(c[i].1, rest, amount);
                            lemma_well_named_update(c, i, deposited(c[i].1, rest, amount)->Ok_0);
                        },
                        None => {
                            let none = Ledger::Tree(Seq::empty());
                            lemma_deposited_well_named(none, rest, amount);
                            lemma_well_named_push(c, name, deposited(none, rest, amount)->Ok_0);
                        },
                    }
                },
                None => {
                    lemma_position(c, path);
                    match position(c, path) {
                        Some(i) => {
                            assert(colon(c[i].0) is None && well_named(c[i].1));
                            lemma_deposited_well_named(c[i].1, path, amount);
                            lemma_well_named_update(c, i, deposited(c[i].1, path, amount)->Ok_0);
                        },
                        None => {},
                    }
                },
            }
        },
        Ledger::Leaf(_) => {},
    }
}

/// A transaction keeps the names of the tree sound.
pub proof fn lemma_applied_well_named(l: Ledger, t: TransactionView)
    requires
        well_named(l),
        applied(l, t) is Ok,
    ensures
        well_named(applied(l, t)->Ok_0),
{
    let with_from = opened(l, t.from)->Ok_0;
    if lookup(l, t.from) is Err {
        lemma_created_well_named(l, t.from, AccountView::Simple(0));
    }
    let ready = opened(with_from, t.to)->Ok_0;
    if lookup(with_from, t.to) is Err {
        lemma_created_well_named(with_from, t.to, AccountView::Simple(0));
    }
    let amount = resolved(t.amount, ready, t.from)->Ok_0;
    lemma_deposited_well_named(ready, t.from, -amount);
    let debited = deposited(ready, t.from, -amount)->Ok_0;
    lemma_deposited_well_named(debited, t.to, amount);
}

/// A tree whose leaves can all be addressed is well named.
pub proof fn lemma_addressable_well_named(l: Ledger, top: bool)
    requires
        addressable(l, top),
    ensures
        well_named(l),
    decreases l,
{
    match l {
        Ledger::Tree(c) => {
            assert forall|i: int| 0 <= i < c.len() implies colon((#[trigger] c[i]).0) is None
                && well_named(c[i].1) by {
                assert(addressable(c[i].1, false));
                lemma_addressable_well_named(c[i].1, false);
            }
        },
        Ledger::Leaf(_) => {},
    }
}

} // verus!
