//! Paths and the leaves they name: in a tree whose names are sound, the path
//! that `paths` lists for a leaf leads `get` to that leaf, and so the sum of
//! the tree is the sum of what its accounts are worth.

use crate::errors::ErrorView;
use crate::ledger::{
    balance_at, balances_at, child_path, colon, evaluated, leaf_paths, leaf_paths_all, leaves,
    leaves_all, lemma_colon, lemma_position, lookup, position, stored, total, total_all,
    AccountView, Children, Ledger,
};
use vstd::prelude::*;

verus! {

/// No two children have the same name.
pub open spec fn distinct_names(c: Children) -> bool {
    forall|i: int, j: int| 0 <= i < j < c.len() ==> c[i].0 != c[j].0
}

/// Every leaf of the tree can be addressed: under each node the names differ
/// and hold no `:`, and a subtree directly under the root has a name that is
/// not empty. `top` says that the node is the root.
pub open spec fn addressable(l: Ledger, top: bool) -> bool
    decreases l,
{
    match l {
        Ledger::Tree(c) => distinct_names(c) && forall|i: int|
            0 <= i < c.len() ==> {
                &&& colon((#[trigger] c[i]).0) is None
                &&& top && c[i].0.len() == 0 ==> c[i].1 is Leaf
                &&& addressable(c[i].1, false)
            },
        Ledger::Leaf(_) => true,
    }
}

/// Every account of the tree is a simple account.
pub open spec fn only_simple(l: Ledger) -> bool
    decreases l,
{
    match l {
        Ledger::Tree(c) => forall|i: int| 0 <= i < c.len() ==> only_simple((#[trigger] c[i]).1),
        Ledger::Leaf(a) => a is Simple,
    }
}

/// The sum of the listed values.
pub open spec fn sum_of(entries: Seq<(Seq<char>, int)>) -> int
    decreases entries.len(),
{
    if entries.len() == 0 {
        0
    } else {
        sum_of(entries.drop_last()) + entries.last().1
    }
}

/// The sum of the balances that the listed accounts store.
pub open spec fn stored_sum(accounts: Seq<(Seq<char>, AccountView)>) -> int
    decreases accounts.len(),
{
    if accounts.len() == 0 {
        0
    } else {
        stored_sum(accounts.drop_last()) + stored(accounts.last().1)
    }
}

/// The listed accounts with what each stores.
pub open spec fn stored_entries(accounts: Seq<(Seq<char>, AccountView)>) -> Seq<(Seq<char>, int)> {
    Seq::new(accounts.len(), |k: int| (accounts[k].0, stored(accounts[k].1)))
}

/// The paths of the listed accounts.
pub open spec fn paths_of(accounts: Seq<(Seq<char>, AccountView)>) -> Seq<Seq<char>> {
    Seq::new(accounts.len(), |k: int| accounts[k].0)
}

/// Whether the node `n`, which stands at `prefix`, is what `prefix` names
/// below `root`: a leaf is found at `prefix`, and below a tree node every
/// path leads where the path with `prefix` before it leads below `root`.
pub open spec fn stands_at(root: Ledger, n: Ledger, prefix: Seq<char>) -> bool {
    match n {
        Ledger::Leaf(_) => lookup(root, prefix) == Ok::<Ledger, ErrorView>(n),
        Ledger::Tree(_) => forall|rel: Seq<char>| #[trigger]
            lookup(root, child_path(prefix, rel)) == lookup(n, rel),
    }
}

/// The first `:` of a text is where a `:` stands that none stands before.
pub proof fn lemma_colon_at(s: Seq<char>, k: int)
    requires
        0 <= k < s.len(),
        s[k] == ':',
        forall|j: int| 0 <= j < k ==> s[j] != ':',
    ensures
        colon(s) == Some(k),
{
    lemma_colon(s);
}

/// A name without `:`, a `:` and a rest split at that `:` into the name and
/// the rest.
pub proof fn lemma_split_joined(name: Seq<char>, rest: Seq<char>)
    requires
        colon(name) is None,
    ensures
        colon(name + seq![':'] + rest) == Some(name.len() as int),
        (name + seq![':'] + rest).take(name.len() as int) == name,
        (name + seq![':'] + rest).skip(name.len() as int + 1) == rest,
{
    let s = name + seq![':'] + rest;
    lemma_colon(name);
    assert forall|j: int| 0 <= j < name.len() implies s[j] != ':' by {
        assert(s[j] == name[j]);
    }
    lemma_colon_at(s, name.len() as int);
    assert(s.take(name.len() as int) =~= name);
    assert(s.skip(name.len() as int + 1) =~= rest);
}

/// Among children with different names each is found under its own name.
pub proof fn lemma_position_of_child(c: Children, i: int)
    requires
        distinct_names(c),
        0 <= i < c.len(),
    ensures
        position(c, c[i].0) == Some(i),
{
    lemma_position(c, c[i].0);
}

/// A child of a node that stands at `prefix` stands at its own path.
pub proof fn lemma_child_stands(root: Ledger, n: Ledger, prefix: Seq<char>, i: int)
    requires
        n is Tree,
        0 <= i < n->Tree_0.len(),
        addressable(n, prefix.len() == 0),
        stands_at(root, n, prefix),
    ensures
        stands_at(root, n->Tree_0[i].1, child_path(prefix, n->Tree_0[i].0)),
{
    let c = n->Tree_0;
    let name = c[i].0;
    let child = c[i].1;
    let below = child_path(prefix, name);
    lemma_position_of_child(c, i);
    assert(colon(c[i].0) is None);
    match child {
        Ledger::Leaf(_) => {
            assert(lookup(root, child_path(prefix, name)) == lookup(n, name));
            assert(lookup(n, name) == Ok::<Ledger, ErrorView>(child));
        },
        Ledger::Tree(_) => {
            assert(below.len() > 0);
            assert forall|rel: Seq<char>| #[trigger]
                lookup(root, child_path(below, rel)) == lookup(child, rel) by {
                let joined = name + seq![':'] + rel;
                lemma_split_joined(name, rel);
                assert(child_path(below, rel) =~= child_path(prefix, joined));
                assert(lookup(root, child_path(prefix, joined)) == lookup(n, joined));
                assert(lookup(n, joined) == lookup(child, rel));
            }
        },
    }
}

/// The paths of the leaves are the paths of the leaves with their accounts.
pub proof fn lemma_leaf_paths(l: Ledger, prefix: Seq<char>)
    ensures
        leaf_paths(l, prefix) == paths_of(leaves(l, prefix)),
    decreases l, 0nat,
{
    match l {
        Ledger::Tree(c) => {
            lemma_leaf_paths_all(c, prefix);
        },
        Ledger::Leaf(a) => {
            assert(leaf_paths(l, prefix) =~= paths_of(leaves(l, prefix)));
        },
    }
}

/// The paths of the leaves under the given children are the paths of those
/// leaves with their accounts.
pub proof fn lemma_leaf_paths_all(c: Children, prefix: Seq<char>)
    ensures
        leaf_paths_all(c, prefix) == paths_of(leaves_all(c, prefix)),
    decreases c, c.len(),
{
    if c.len() > 0 {
        lemma_leaf_paths_all(c.drop_last(), prefix);
        lemma_leaf_paths(c.last().1, child_path(prefix, c.last().0));
        assert(leaf_paths_all(c, prefix) =~= paths_of(leaves_all(c, prefix)));
    } else {
        assert(leaf_paths_all(c, prefix) =~= paths_of(leaves_all(c, prefix)));
    }
}

/// The balances stored by two lists of accounts add up.
pub proof fn lemma_stored_sum_concat(
    a: Seq<(Seq<char>, AccountView)>,
    b: Seq<(Seq<char>, AccountView)>,
)
    ensures
        stored_sum(a + b) == stored_sum(a) + stored_sum(b),
    decreases b.len(),
{
    if b.len() == 0 {
        assert(a + b =~= a);
    } else {
        assert((a + b).drop_last() =~= a + b.drop_last());
        lemma_stored_sum_concat(a, b.drop_last());
    }
}

/// The sum of a node is the sum of what its leaves store.
pub proof fn lemma_total_of_leaves(l: Ledger, prefix: Seq<char>)
    ensures
        total(l) == stored_sum(leaves(l, prefix)),
    decreases l, 0nat,
{
    match l {
        Ledger::Tree(c) => {
            lemma_total_of_leaves_all(c, prefix);
        },
        Ledger::Leaf(a) => {
            let one = seq![(prefix, a)];
            assert(one.drop_last() =~= Seq::empty());
            assert(stored_sum(one.drop_last()) == 0);
        },
    }
}

/// The sum of the given children is the sum of what their leaves store.
pub proof fn lemma_total_of_leaves_all(c: Children, prefix: Seq<char>)
    ensures
        total_all(c) == stored_sum(leaves_all(c, prefix)),
    decreases c, c.len(),
{
    if c.len() > 0 {
        lemma_total_of_leaves_all(c.drop_last(), prefix);
        lemma_total_of_leaves(c.last().1, child_path(prefix, c.last().0));
        lemma_stored_sum_concat(
            leaves_all(c.drop_last(), prefix),
            leaves(c.last().1, child_path(prefix, c.last().0)),
        );
    }
}

/// The listed values of what the accounts store add up to what they store.
pub proof fn lemma_sum_of_stored(accounts: Seq<(Seq<char>, AccountView)>)
    ensures
        sum_of(stored_entries(accounts)) == stored_sum(accounts),
    decreases accounts.len(),
{
    if accounts.len() > 0 {
        assert(stored_entries(accounts).drop_last() =~= stored_entries(accounts.drop_last()));
        lemma_sum_of_stored(accounts.drop_last());
    }
}

/// Every leaf of a node that stands at its prefix is found at its path, and
/// is a simple account where the node holds no other.
pub proof fn lemma_leaves_found(root: Ledger, n: Ledger, prefix: Seq<char>)
    requires
        addressable(n, prefix.len() == 0),
        stands_at(root, n, prefix),
    ensures
        forall|k: int|
            0 <= k < leaves(n, prefix).len() ==> lookup(root, (#[trigger] leaves(n, prefix)[k]).0)
                == Ok::<Ledger, ErrorView>(Ledger::Leaf(leaves(n, prefix)[k].1)),
        only_simple(n) ==> forall|k: int|
            0 <= k < leaves(n, prefix).len() ==> (#[trigger] leaves(n, prefix)[k]).1 is Simple,
    decreases n,
        match n {
            Ledger::Tree(c) => c.len() + 1,
            Ledger::Leaf(_) => 0,
        },
{
    match n {
        Ledger::Tree(c) => {
            lemma_leaves_found_all(root, n, prefix, c.len() as int);
            assert(c.take(c.len() as int) =~= c);
        },
        Ledger::Leaf(_) => {},
    }
}

/// Every leaf under the first `m` children of a node that stands at its
/// prefix is found at its path.
pub proof fn lemma_leaves_found_all(root: Ledger, n: Ledger, prefix: Seq<char>, m: int)
    requires
        n is Tree,
        0 <= m <= n->Tree_0.len(),
        addressable(n, prefix.len() == 0),
        stands_at(root, n, prefix),
    ensures
        forall|k: int|
            0 <= k < leaves_all(n->Tree_0.take(m), prefix).len() ==> lookup(
                root,
                (#[trigger] leaves_all(n->Tree_0.take(m), prefix)[k]).0,
            ) == Ok::<Ledger, ErrorView>(
                Ledger::Leaf(leaves_all(n->Tree_0.take(m), prefix)[k].1),
            ),
        only_simple(n) ==> forall|k: int|
            0 <= k < leaves_all(n->Tree_0.take(m), prefix).len() ==> (#[trigger] leaves_all(
                n->Tree_0.take(m),
                prefix,
            )[k]).1 is Simple,
    decreases n, m,
{
    let c = n->Tree_0;
    if m > 0 {
        let before = leaves_all(c.take(m - 1), prefix);
        let child = c[m - 1].1;
        let below = child_path(prefix, c[m - 1].0);
        let here = leaves(child, below);
        let all = leaves_all(c.take(m), prefix);
        assert(c.take(m).drop_last() =~= c.take(m - 1));
        assert(c.take(m).last() == c[m - 1]);
        assert(all == before + here);
        lemma_leaves_found_all(root, n, prefix, m - 1);
        lemma_child_stands(root, n, prefix, m - 1);
        assert(addressable(c[m - 1].1, false));
        if child is Tree {
            assert(below.len() > 0);
        }
        lemma_leaves_found(root, child, below);
        assert forall|k: int| 0 <= k < all.len() implies lookup(root, (#[trigger] all[k]).0)
            == Ok::<Ledger, ErrorView>(Ledger::Leaf(all[k].1)) by {
            if k < before.len() {
                assert(all[k] == before[k]);
            } else {
                assert(all[k] == here[k - before.len()]);
            }
        }
        if only_simple(n) {
            assert(only_simple(c[m - 1].1));
            assert forall|k: int| 0 <= k < all.len() implies (#[trigger] all[k]).1 is Simple by {
                if k < before.len() {
                    assert(all[k] == before[k]);
                } else {
                    assert(all[k] == here[k - before.len()]);
                }
            }
        }
    }
}

/// Where every listed account is a simple account that is found at its path,
/// the accounts are worth what they store.
pub proof fn lemma_balances_of_found(root: Ledger, accounts: Seq<(Seq<char>, AccountView)>)
    requires
        forall|k: int|
            0 <= k < accounts.len() ==> lookup(root, (#[trigger] accounts[k]).0) == Ok::<
                Ledger,
                ErrorView,
            >(Ledger::Leaf(accounts[k].1)) && accounts[k].1 is Simple,
    ensures
        balances_at(root, paths_of(accounts)) == Ok::<Seq<(Seq<char>, int)>, ErrorView>(
            stored_entries(accounts),
        ),
    decreases accounts.len(),
{
    let paths = paths_of(accounts);
    if accounts.len() > 0 {
        let fewer = accounts.drop_last();
        assert forall|k: int| 0 <= k < fewer.len() implies lookup(root, (#[trigger] fewer[k]).0)
            == Ok::<Ledger, ErrorView>(Ledger::Leaf(fewer[k].1)) && fewer[k].1 is Simple by {
            assert(fewer[k] == accounts[k]);
        }
        lemma_balances_of_found(root, fewer);
        assert(paths.drop_last() =~= paths_of(fewer));
        let last = accounts.last();
        assert(last == accounts[accounts.len() - 1]);
        assert(balance_at(root, last.0) == Ok::<int, ErrorView>(stored(last.1)));
        assert(stored_entries(fewer).push((last.0, stored(last.1))) =~= stored_entries(accounts));
    } else {
        assert(stored_entries(accounts) =~= Seq::empty());
    }
}

/// In a tree of simple accounts whose leaves can all be addressed, the sum of
/// the root is the sum of what `eval` lists.
pub proof fn lemma_sum_is_sum_of_values(root: Ledger)
    requires
        addressable(root, true),
        only_simple(root),
    ensures
        evaluated(root) is Ok,
        sum_of(evaluated(root)->Ok_0) == total(root),
{
    let prefix = Seq::<char>::empty();
    let accounts = leaves(root, prefix);
    match root {
        Ledger::Tree(_) => {
            assert forall|rel: Seq<char>| #[trigger]
                lookup(root, child_path(prefix, rel)) == lookup(root, rel) by {
                assert(child_path(prefix, rel) == rel);
            }
        },
        Ledger::Leaf(_) => {},
    }
    lemma_leaves_found(root, root, prefix);
    lemma_leaf_paths(root, prefix);
    lemma_balances_of_found(root, accounts);
    lemma_total_of_leaves(root, prefix);
    lemma_sum_of_stored(accounts);
}

} // verus!
