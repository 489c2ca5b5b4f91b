//! What the merge of several streams hands out, and what holds of it.
//!
//! The merge always hands out next, among the items that its sources would
//! hand out next, the one with the least key; where several have that key, the
//! one of the source that stands first.

use crate::iterators::Keyed;
use vstd::multiset::Multiset;
use vstd::prelude::*;
use vstd::seq_lib::lemma_multiset_commutative;

verus! {

/// The number of items in all the sources together.
pub open spec fn total_len<V>(sources: Seq<Seq<V>>) -> nat
    decreases sources.len(),
{
    if sources.len() == 0 {
        0
    } else {
        total_len(sources.drop_last()) + sources.last().len()
    }
}

/// All the items of all the sources.
pub open spec fn all_items<V>(sources: Seq<Seq<V>>) -> Multiset<V>
    decreases sources.len(),
{
    if sources.len() == 0 {
        Multiset::empty()
    } else {
        all_items(sources.drop_last()).add(sources.last().to_multiset())
    }
}

/// Among the first `n` sources, the first whose next item has the least key.
pub open spec fn min_source<T: Keyed>(sources: Seq<Seq<T::V>>, n: int) -> Option<int>
    decreases n,
{
    if n <= 0 {
        None
    } else if sources[n - 1].len() == 0 {
        min_source::<T>(sources, n - 1)
    } else {
        match min_source::<T>(sources, n - 1) {
            Some(best) => if T::key(sources[n - 1][0]) < T::key(sources[best][0]) {
                Some(n - 1)
            } else {
                Some(best)
            },
            None => Some(n - 1),
        }
    }
}

/// The sources after the `i`-th has handed out its next item.
pub open spec fn advanced<V>(sources: Seq<Seq<V>>, i: int) -> Seq<Seq<V>> {
    sources.update(i, sources[i].drop_first())
}

/// The items in the order in which the merge of the sources hands them out.
pub open spec fn merged<T: Keyed>(sources: Seq<Seq<T::V>>) -> Seq<T::V>
    decreases total_len(sources),
{
    match min_source::<T>(sources, sources.len() as int) {
        Some(i) => {
            proof {
                lemma_min_source::<T>(sources, sources.len() as int);
                lemma_total_len_update(sources, i, sources[i].drop_first());
            }
            seq![sources[i][0]] + merged::<T>(advanced(sources, i))
        },
        None => Seq::empty(),
    }
}

/// The keys of the items do not fall along the sequence.
pub open spec fn sorted<T: Keyed>(s: Seq<T::V>) -> bool {
    forall|i: int, j: int| 0 <= i <= j < s.len() ==> T::key(s[i]) <= T::key(s[j])
}

/// No item of the sequence has a key below `bound`.
pub open spec fn bounded_below<T: Keyed>(s: Seq<T::V>, bound: int) -> bool {
    forall|i: int| 0 <= i < s.len() ==> bound <= T::key(#[trigger] s[i])
}

/// `min_source` finds the first source whose next item has the least key.
pub proof fn lemma_min_source<T: Keyed>(sources: Seq<Seq<T::V>>, n: int)
    requires
        0 <= n <= sources.len(),
    ensures
        match min_source::<T>(sources, n) {
            Some(i) => {
                &&& 0 <= i < n
                &&& sources[i].len() > 0
                &&& forall|j: int|
                    0 <= j < n && sources[j].len() > 0 ==> T::key(sources[i][0]) <= T::key(
                        #[trigger] sources[j][0],
                    )
                &&& forall|j: int|
                    0 <= j < i && sources[j].len() > 0 ==> T::key(sources[i][0]) < T::key(
                        #[trigger] sources[j][0],
                    )
            },
            None => forall|j: int| 0 <= j < n ==> (#[trigger] sources[j]).len() == 0,
        },
    decreases n,
{
    if n > 0 {
        lemma_min_source::<T>(sources, n - 1);
    }
}

/// Replacing one source changes the total length by the difference of the lengths.
pub proof fn lemma_total_len_update<V>(sources: Seq<Seq<V>>, i: int, s: Seq<V>)
    requires
        0 <= i < sources.len(),
    ensures
        total_len(sources.update(i, s)) == total_len(sources) - sources[i].len() + s.len(),
    decreases sources.len(),
{
    let updated = sources.update(i, s);
    if i == sources.len() - 1 {
        assert(updated.drop_last() =~= sources.drop_last());
    } else {
        assert(updated.drop_last() =~= sources.drop_last().update(i, s));
        lemma_total_len_update(sources.drop_last(), i, s);
    }
}

/// Replacing one source takes its items out of the whole and puts the new ones in.
pub proof fn lemma_all_items_update<V>(sources: Seq<Seq<V>>, i: int, s: Seq<V>)
    requires
        0 <= i < sources.len(),
    ensures
        all_items(sources.update(i, s)).add(sources[i].to_multiset()) == all_items(sources).add(
            s.to_multiset(),
        ),
    decreases sources.len(),
{
    broadcast use vstd::multiset::group_multiset_axioms;

    let updated = sources.update(i, s);
    let before = all_items(sources.drop_last());
    assert(updated.len() == sources.len());
    assert(all_items(sources) == before.add(sources.last().to_multiset()));
    assert(all_items(updated) == all_items(updated.drop_last()).add(
        updated.last().to_multiset(),
    ));
    if i == sources.len() - 1 {
        assert(updated.drop_last() =~= sources.drop_last());
        assert(updated.last() == s);
        assert(before.add(s.to_multiset()).add(sources[i].to_multiset()) =~= before.add(
            sources[i].to_multiset(),
        ).add(s.to_multiset()));
    } else {
        assert(updated.drop_last() =~= sources.drop_last().update(i, s));
        assert(updated.last() == sources.last());
        assert(sources.drop_last()[i] == sources[i]);
        lemma_all_items_update(sources.drop_last(), i, s);
        let changed = all_items(sources.drop_last().update(i, s));
        let last = sources.last().to_multiset();
        assert(changed.add(last).add(sources[i].to_multiset()) =~= changed.add(
            sources[i].to_multiset(),
        ).add(last));
        assert(before.add(s.to_multiset()).add(last) =~= before.add(last).add(s.to_multiset()));
    }
}

/// Where no source holds a key below `bound`, the merge hands out none.
pub proof fn lemma_merged_bounded<T: Keyed>(sources: Seq<Seq<T::V>>, bound: int)
    requires
        forall|j: int| 0 <= j < sources.len() ==> bounded_below::<T>(#[trigger] sources[j], bound),
    ensures
        bounded_below::<T>(merged::<T>(sources), bound),
    decreases total_len(sources),
{
    lemma_min_source::<T>(sources, sources.len() as int);
    match min_source::<T>(sources, sources.len() as int) {
        Some(i) => {
            let next = advanced(sources, i);
            lemma_total_len_update(sources, i, sources[i].drop_first());
            assert forall|j: int| 0 <= j < next.len() implies bounded_below::<T>(
                #[trigger] next[j],
                bound,
            ) by {
                assert(bounded_below::<T>(sources[j], bound));
                if j == i {
                    assert forall|k: int| 0 <= k < next[j].len() implies bound <= T::key(
                        #[trigger] next[j][k],
                    ) by {
                        assert(next[j][k] == sources[j][k + 1]);
                    }
                }
            }
            lemma_merged_bounded::<T>(next, bound);
            let rest = merged::<T>(next);
            let all = merged::<T>(sources);
            assert(bounded_below::<T>(sources[i], bound));
            assert forall|k: int| 0 <= k < all.len() implies bound <= T::key(#[trigger] all[k]) by {
                if k > 0 {
                    assert(all[k] == rest[k - 1]);
                }
            }
        },
        None => {},
    }
}

/// The merge of sorted sources is sorted.
pub proof fn lemma_merged_sorted<T: Keyed>(sources: Seq<Seq<T::V>>)
    requires
        forall|j: int| 0 <= j < sources.len() ==> sorted::<T>(#[trigger] sources[j]),
    ensures
        sorted::<T>(merged::<T>(sources)),
    decreases total_len(sources),
{
    lemma_min_source::<T>(sources, sources.len() as int);
    match min_source::<T>(sources, sources.len() as int) {
        Some(i) => {
            let next = advanced(sources, i);
            let least = T::key(sources[i][0]);
            lemma_total_len_update(sources, i, sources[i].drop_first());
            assert forall|j: int| 0 <= j < next.len() implies sorted::<T>(#[trigger] next[j])
                && bounded_below::<T>(next[j], least) by {
                assert(sorted::<T>(sources[j]));
                if j == i {
                    assert forall|a: int, b: int| 0 <= a <= b < next[j].len() implies T::key(
                        next[j][a],
                    ) <= T::key(next[j][b]) by {
                        assert(next[j][a] == sources[j][a + 1]);
                        assert(next[j][b] == sources[j][b + 1]);
                    }
                    assert forall|k: int| 0 <= k < next[j].len() implies least <= T::key(
                        #[trigger] next[j][k],
                    ) by {
                        assert(next[j][k] == sources[j][k + 1]);
                    }
                } else {
                    assert forall|k: int| 0 <= k < next[j].len() implies least <= T::key(
                        #[trigger] next[j][k],
                    ) by {
                        assert(T::key(sources[j][0]) <= T::key(sources[j][k]));
                    }
                }
            }
            lemma_merged_sorted::<T>(next);
            lemma_merged_bounded::<T>(next, least);
            let rest = merged::<T>(next);
            let all = merged::<T>(sources);
            assert forall|a: int, b: int| 0 <= a <= b < all.len() implies T::key(all[a]) <= T::key(
                all[b],
            ) by {
                if a > 0 {
                    assert(all[a] == rest[a - 1]);
                    assert(all[b] == rest[b - 1]);
                } else if b > 0 {
                    assert(all[b] == rest[b - 1]);
                }
            }
        },
        None => {},
    }
}

/// The merge hands out every item of every source, each as often as the
/// sources hold it.
pub proof fn lemma_merged_permutation<T: Keyed>(sources: Seq<Seq<T::V>>)
    ensures
        merged::<T>(sources).to_multiset() == all_items(sources),
    decreases total_len(sources),
{
    broadcast use vstd::multiset::group_multiset_axioms;

    lemma_min_source::<T>(sources, sources.len() as int);
    match min_source::<T>(sources, sources.len() as int) {
        Some(i) => {
            let next = advanced(sources, i);
            let head = seq![sources[i][0]];
            lemma_total_len_update(sources, i, sources[i].drop_first());
            let tail = sources[i].drop_first();
            lemma_merged_permutation::<T>(next);
            lemma_all_items_update(sources, i, tail);
            lemma_multiset_commutative(head, merged::<T>(next));
            lemma_multiset_commutative(head, tail);
            assert(head + tail =~= sources[i]);
            let one = head.to_multiset();
            let rest = all_items(next);
            assert(merged::<T>(sources) == head + merged::<T>(next));
            assert(merged::<T>(sources).to_multiset() == one.add(rest));
            assert(sources[i].to_multiset() == one.add(tail.to_multiset()));
            assert(rest.add(one.add(tail.to_multiset())) == all_items(sources).add(
                tail.to_multiset(),
            ));
            assert forall|v: T::V| one.add(rest).count(v) == all_items(sources).count(v) by {
                assert(rest.add(one.add(tail.to_multiset())).count(v) == all_items(sources).add(
                    tail.to_multiset(),
                ).count(v));
            }
            assert(one.add(rest) =~= all_items(sources));
        },
        None => {
            lemma_all_items_empty(sources);
            lemma_empty_to_multiset::<T::V>();
        },
    }
}

/// Sources without items hold no item.
pub proof fn lemma_all_items_empty<V>(sources: Seq<Seq<V>>)
    requires
        forall|j: int| 0 <= j < sources.len() ==> (#[trigger] sources[j]).len() == 0,
    ensures
        all_items(sources) == Multiset::<V>::empty(),
    decreases sources.len(),
{
    if sources.len() > 0 {
        assert forall|j: int| 0 <= j < sources.drop_last().len() implies (
        #[trigger] sources.drop_last()[j]).len() == 0 by {
            assert(sources.drop_last()[j] == sources[j]);
        }
        lemma_all_items_empty(sources.drop_last());
        assert(sources.last() =~= Seq::<V>::empty());
        lemma_empty_to_multiset::<V>();
        assert(all_items(sources) =~= Multiset::<V>::empty());
    }
}

/// The empty sequence holds no item.
pub proof fn lemma_empty_to_multiset<V>()
    ensures
        Seq::<V>::empty().to_multiset() == Multiset::<V>::empty(),
{
    broadcast use vstd::multiset::group_multiset_axioms;

    let none = Seq::<V>::empty();
    none.to_multiset_ensures();
    assert forall|a: V| none.to_multiset().count(a) == 0 by {
        assert(!none.contains(a));
    }
    assert(none.to_multiset() =~= Multiset::<V>::empty());
}

/// The merge of one source hands out the items of that source in their order,
/// sorted or not.
pub proof fn lemma_merged_single<T: Keyed>(s: Seq<T::V>)
    ensures
        merged::<T>(seq![s]) == s,
    decreases s.len(),
{
    let sources = seq![s];
    lemma_min_source::<T>(sources, 1);
    if s.len() > 0 {
        assert(advanced(sources, 0) =~= seq![s.drop_first()]);
        lemma_merged_single::<T>(s.drop_first());
        assert(merged::<T>(sources) =~= s);
    } else {
        assert(merged::<T>(sources) =~= s);
    }
}

/// The merge of a source and an empty source, in either order, hands out the
/// items of the source in their order.
pub proof fn lemma_merged_with_empty<T: Keyed>(s: Seq<T::V>)
    ensures
        merged::<T>(seq![s, Seq::empty()]) == s,
        merged::<T>(seq![Seq::empty(), s]) == s,
    decreases s.len(),
{
    let none = Seq::<T::V>::empty();
    let left = seq![s, none];
    let right = seq![none, s];
    lemma_min_source::<T>(left, 2);
    lemma_min_source::<T>(right, 2);
    if s.len() > 0 {
        assert(advanced(left, 0) =~= seq![s.drop_first(), none]);
        assert(advanced(right, 1) =~= seq![none, s.drop_first()]);
        lemma_merged_with_empty::<T>(s.drop_first());
        assert(merged::<T>(left) =~= s);
        assert(merged::<T>(right) =~= s);
    } else {
        assert(merged::<T>(left) =~= s);
        assert(merged::<T>(right) =~= s);
    }
}

/// The source that `min_source` finds is the only one whose next item has
/// the least key and that stands before every other such source.
pub proof fn lemma_min_source_is<T: Keyed>(sources: Seq<Seq<T::V>>, n: int, i: int)
    requires
        0 <= i < n <= sources.len(),
        sources[i].len() > 0,
        forall|j: int|
            0 <= j < n && sources[j].len() > 0 ==> T::key(sources[i][0]) <= T::key(
                #[trigger] sources[j][0],
            ),
        forall|j: int|
            0 <= j < i && sources[j].len() > 0 ==> T::key(sources[i][0]) < T::key(
                #[trigger] sources[j][0],
            ),
    ensures
        min_source::<T>(sources, n) == Some(i),
{
    lemma_min_source::<T>(sources, n);
    let found = min_source::<T>(sources, n)->0;
    assert(T::key(sources[found][0]) <= T::key(sources[i][0]));
    assert(T::key(sources[i][0]) <= T::key(sources[found][0]));
}

/// A source without items can be left out of a merge.
pub proof fn lemma_merged_without_empty<T: Keyed>(sources: Seq<Seq<T::V>>, i: int)
    requires
        0 <= i < sources.len(),
        sources[i].len() == 0,
    ensures
        merged::<T>(sources.remove(i)) == merged::<T>(sources),
    decreases total_len(sources),
{
    let fewer = sources.remove(i);
    let n = sources.len() as int;
    lemma_min_source::<T>(sources, n);
    lemma_min_source::<T>(fewer, n - 1);
    match min_source::<T>(sources, n) {
        Some(j) => {
            let k = if j < i {
                j
            } else {
                j - 1
            };
            assert(fewer[k] == sources[j]);
            assert forall|m: int| 0 <= m < n - 1 && fewer[m].len() > 0 implies T::key(
                fewer[k][0],
            ) <= T::key(#[trigger] fewer[m][0]) by {
                if m < i {
                    assert(fewer[m] == sources[m]);
                } else {
                    assert(fewer[m] == sources[m + 1]);
                }
            }
            assert forall|m: int| 0 <= m < k && fewer[m].len() > 0 implies T::key(fewer[k][0])
                < T::key(#[trigger] fewer[m][0]) by {
                if m < i {
                    assert(fewer[m] == sources[m]);
                } else {
                    assert(fewer[m] == sources[m + 1]);
                }
            }
            lemma_min_source_is::<T>(fewer, n - 1, k);
            lemma_total_len_update(sources, j, sources[j].drop_first());
            assert(advanced(fewer, k) =~= advanced(sources, j).remove(i));
            lemma_merged_without_empty::<T>(advanced(sources, j), i);
        },
        None => {
            match min_source::<T>(fewer, n - 1) {
                Some(k) => {
                    if k < i {
                        assert(fewer[k] == sources[k]);
                    } else {
                        assert(fewer[k] == sources[k + 1]);
                    }
                },
                None => {},
            }
        },
    }
}

/// Whether every source has an item to hand out.
pub open spec fn all_live<V>(sources: Seq<Seq<V>>) -> bool {
    forall|i: int| 0 <= i < sources.len() ==> (#[trigger] sources[i]).len() > 0
}

} // verus!
