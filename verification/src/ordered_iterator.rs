//! The merge of two sorted streams into one.
//!
//! The merge holds back the greater of the two items it compared last and
//! draws from the stream of the lesser one until that stream hands out an
//! item that is not less than the one held back; the two then change places.

use crate::iterators::{Keyed, OrdIterator, Stream};
use crate::merge::{bounded_below, sorted};
use vstd::prelude::*;
use vstd::seq_lib::lemma_multiset_commutative;

verus! {

/// What the merge hands out when the first stream has `a` and the second has
/// `b` still to come, `held` is held back, and the merge draws from the first
/// stream (`from_first`) or from the second.
pub open spec fn two_way<T: Keyed>(
    a: Seq<T::V>,
    b: Seq<T::V>,
    held: Option<T::V>,
    from_first: bool,
) -> Seq<T::V>
    decreases a.len() + b.len(),
{
    match held {
        None => if a.len() == 0 {
            b
        } else if b.len() == 0 {
            a
        } else if T::key(a[0]) < T::key(b[0]) {
            seq![a[0]] + two_way::<T>(a.drop_first(), b.drop_first(), Some(b[0]), true)
        } else {
            seq![b[0]] + two_way::<T>(a.drop_first(), b.drop_first(), Some(a[0]), false)
        },
        Some(m) => if from_first {
            if a.len() == 0 {
                seq![m] + b
            } else if T::key(a[0]) < T::key(m) {
                seq![a[0]] + two_way::<T>(a.drop_first(), b, Some(m), true)
            } else {
                seq![m] + two_way::<T>(a.drop_first(), b, Some(a[0]), false)
            }
        } else {
            if b.len() == 0 {
                seq![m] + a
            } else if T::key(b[0]) < T::key(m) {
                seq![b[0]] + two_way::<T>(a, b.drop_first(), Some(m), false)
            } else {
                seq![m] + two_way::<T>(a, b.drop_first(), Some(b[0]), true)
            }
        },
    }
}

/// The view of an item that may be there.
pub open spec fn view_of<T: View>(item: Option<T>) -> Option<T::V> {
    match item {
        Some(x) => Some(x@),
        None => None,
    }
}

/// The merge of two streams.
pub struct OrderedIterator<P: Stream> {
    pub first: OrdIterator<P>,
    pub second: OrdIterator<P>,
    pub pop_from: usize,
    pub first_empty: bool,
    pub second_empty: bool,
    pub max: Option<P::Item>,
}

impl<P: Stream> OrderedIterator<P> where P::Item: Keyed {
    /// The merge of `first` and `second`.
    pub fn new(first: P, second: P) -> (merge: OrderedIterator<P>)
        ensures
            merge.remaining() == two_way::<P::Item>(
                first.remaining(),
                second.remaining(),
                None,
                true,
            ),
    {
        let first_peekable = OrdIterator::new(first);
        let second_peekable = OrdIterator::new(second);
        let first_empty = match first_peekable.peek_key() {
            Some(_) => false,
            None => true,
        };
        let second_empty = match second_peekable.peek_key() {
            Some(_) => false,
            None => true,
        };
        OrderedIterator {
            first: first_peekable,
            second: second_peekable,
            first_empty,
            second_empty,
            pop_from: 0,
            max: None,
        }
    }
}

impl<P: Stream> Stream for OrderedIterator<P> where P::Item: Keyed {
    type Item = P::Item;

    open spec fn remaining(&self) -> Seq<<P::Item as View>::V> {
        if self.first_empty {
            self.second.remaining()
        } else if self.second_empty {
            self.first.remaining()
        } else {
            two_way::<P::Item>(
                self.first.remaining(),
                self.second.remaining(),
                view_of(self.max),
                self.pop_from == 0,
            )
        }
    }

    fn next(&mut self) -> (item: Option<P::Item>) {
        let ghost a = self.first.remaining();
        let ghost b = self.second.remaining();
        if self.first_empty {
            self.second.next()
        } else if self.second_empty {
            self.first.next()
        } else if self.max.is_some() {
            let max_item = self.max.take().unwrap();
            let pop = if self.pop_from == 0 {
                self.first.next()
            } else {
                self.second.next()
            };
            match pop {
                Some(pop_item) => {
                    if pop_item.sort_key() < max_item.sort_key() {
                        self.max = Some(max_item);
                        proof {
                            let all = two_way::<P::Item>(a, b, Some(max_item@), old(self).pop_from == 0);
                            assert(all.drop_first() =~= self.remaining());
                        }
                        Some(pop_item)
                    } else {
                        self.pop_from = if self.pop_from == 0 {
                            1
                        } else {
                            0
                        };
                        self.max = Some(pop_item);
                        proof {
                            let all = two_way::<P::Item>(a, b, Some(max_item@), old(self).pop_from == 0);
                            assert(all.drop_first() =~= self.remaining());
                        }
                        Some(max_item)
                    }
                },
                None => {
                    if self.pop_from == 0 {
                        self.first_empty = true;
                    } else {
                        self.second_empty = true;
                    }
                    proof {
                        let all = two_way::<P::Item>(a, b, Some(max_item@), old(self).pop_from == 0);
                        assert(all.drop_first() =~= self.remaining());
                    }
                    Some(max_item)
                },
            }
        } else {
            match self.first.next() {
                Some(first_item) => match self.second.next() {
                    Some(second_item) => {
                        if first_item.sort_key() < second_item.sort_key() {
                            self.max = Some(second_item);
                            self.pop_from = 0;
                            proof {
                                let all = two_way::<P::Item>(a, b, None, true);
                                assert(all.drop_first() =~= self.remaining());
                            }
                            Some(first_item)
                        } else {
                            self.max = Some(first_item);
                            self.pop_from = 1;
                            proof {
                                let all = two_way::<P::Item>(a, b, None, true);
                                assert(all.drop_first() =~= self.remaining());
                            }
                            Some(second_item)
                        }
                    },
                    None => {
                        self.second_empty = true;
                        Some(first_item)
                    },
                },
                None => {
                    self.first_empty = true;
                    self.second.next()
                },
            }
        }
    }
}

/// Where neither the streams nor the item held back have a key below
/// `bound`, the merge hands out none.
pub proof fn lemma_two_way_bounded<T: Keyed>(
    a: Seq<T::V>,
    b: Seq<T::V>,
    held: Option<T::V>,
    from_first: bool,
    bound: int,
)
    requires
        bounded_below::<T>(a, bound),
        bounded_below::<T>(b, bound),
        held matches Some(m) ==> bound <= T::key(m),
    ensures
        bounded_below::<T>(two_way::<T>(a, b, held, from_first), bound),
    decreases a.len() + b.len(),
{
    let all = two_way::<T>(a, b, held, from_first);
    let ta = a.drop_first();
    let tb = b.drop_first();
    if a.len() > 0 {
        assert forall|i: int| 0 <= i < ta.len() implies bound <= T::key(#[trigger] ta[i]) by {
            assert(ta[i] == a[i + 1]);
        }
    }
    if b.len() > 0 {
        assert forall|i: int| 0 <= i < tb.len() implies bound <= T::key(#[trigger] tb[i]) by {
            assert(tb[i] == b[i + 1]);
        }
    }
    let tail: Seq<T::V> = match held {
        None => if a.len() == 0 || b.len() == 0 {
            all
        } else if T::key(a[0]) < T::key(b[0]) {
            lemma_two_way_bounded::<T>(ta, tb, Some(b[0]), true, bound);
            two_way::<T>(ta, tb, Some(b[0]), true)
        } else {
            lemma_two_way_bounded::<T>(ta, tb, Some(a[0]), false, bound);
            two_way::<T>(ta, tb, Some(a[0]), false)
        },
        Some(m) => if from_first {
            if a.len() == 0 {
                b
            } else if T::key(a[0]) < T::key(m) {
                lemma_two_way_bounded::<T>(ta, b, Some(m), true, bound);
                two_way::<T>(ta, b, Some(m), true)
            } else {
                lemma_two_way_bounded::<T>(ta, b, Some(a[0]), false, bound);
                two_way::<T>(ta, b, Some(a[0]), false)
            }
        } else {
            if b.len() == 0 {
                a
            } else if T::key(b[0]) < T::key(m) {
                lemma_two_way_bounded::<T>(a, tb, Some(m), false, bound);
                two_way::<T>(a, tb, Some(m), false)
            } else {
                lemma_two_way_bounded::<T>(a, tb, Some(b[0]), true, bound);
                two_way::<T>(a, tb, Some(b[0]), true)
            }
        },
    };
    if held is None && (a.len() == 0 || b.len() == 0) {
    } else {
        assert forall|i: int| 0 <= i < all.len() implies bound <= T::key(#[trigger] all[i]) by {
            if i > 0 {
                assert(all[i] == tail[i - 1]);
            }
        }
    }
}

/// A sequence stays sorted when an item that is not greater than any of its
/// items is put in front.
pub proof fn lemma_sorted_cons<T: Keyed>(head: T::V, tail: Seq<T::V>)
    requires
        sorted::<T>(tail),
        bounded_below::<T>(tail, T::key(head)),
    ensures
        sorted::<T>(seq![head] + tail),
{
    let all = seq![head] + tail;
    assert forall|i: int, j: int| 0 <= i <= j < all.len() implies T::key(all[i]) <= T::key(
        all[j],
    ) by {
        if i > 0 {
            assert(all[i] == tail[i - 1]);
            assert(all[j] == tail[j - 1]);
        } else if j > 0 {
            assert(all[j] == tail[j - 1]);
        }
    }
}

/// The rest of a sorted sequence is sorted, and no item of it is less than
/// the first item.
pub proof fn lemma_sorted_rest<T: Keyed>(s: Seq<T::V>)
    requires
        sorted::<T>(s),
        s.len() > 0,
    ensures
        sorted::<T>(s.drop_first()),
        bounded_below::<T>(s.drop_first(), T::key(s[0])),
        bounded_below::<T>(s, T::key(s[0])),
{
    let t = s.drop_first();
    assert forall|i: int, j: int| 0 <= i <= j < t.len() implies T::key(t[i]) <= T::key(t[j]) by {
        assert(t[i] == s[i + 1]);
        assert(t[j] == s[j + 1]);
    }
    assert forall|i: int| 0 <= i < t.len() implies T::key(s[0]) <= T::key(#[trigger] t[i]) by {
        assert(t[i] == s[i + 1]);
    }
}

/// A lower bound stays one when it is lowered.
pub proof fn lemma_bound_lowered<T: Keyed>(s: Seq<T::V>, bound: int, lower: int)
    requires
        bounded_below::<T>(s, bound),
        lower <= bound,
    ensures
        bounded_below::<T>(s, lower),
{
}

/// The merge of two sorted streams is sorted, from any state in which the
/// item held back is not greater than what the stream it came from has still
/// to hand out.
pub proof fn lemma_two_way_sorted<T: Keyed>(
    a: Seq<T::V>,
    b: Seq<T::V>,
    held: Option<T::V>,
    from_first: bool,
)
    requires
        sorted::<T>(a),
        sorted::<T>(b),
        held matches Some(m) ==> bounded_below::<T>(
            if from_first {
                b
            } else {
                a
            },
            T::key(m),
        ),
    ensures
        sorted::<T>(two_way::<T>(a, b, held, from_first)),
    decreases a.len() + b.len(),
{
    let ta = a.drop_first();
    let tb = b.drop_first();
    if a.len() > 0 {
        lemma_sorted_rest::<T>(a);
    }
    if b.len() > 0 {
        lemma_sorted_rest::<T>(b);
    }
    match held {
        None => {
            if a.len() == 0 || b.len() == 0 {
            } else if T::key(a[0]) < T::key(b[0]) {
                let low = T::key(a[0]);
                lemma_two_way_sorted::<T>(ta, tb, Some(b[0]), true);
                lemma_bound_lowered::<T>(tb, T::key(b[0]), low);
                lemma_two_way_bounded::<T>(ta, tb, Some(b[0]), true, low);
                lemma_sorted_cons::<T>(a[0], two_way::<T>(ta, tb, Some(b[0]), true));
            } else {
                let low = T::key(b[0]);
                lemma_two_way_sorted::<T>(ta, tb, Some(a[0]), false);
                lemma_bound_lowered::<T>(ta, T::key(a[0]), low);
                lemma_two_way_bounded::<T>(ta, tb, Some(a[0]), false, low);
                lemma_sorted_cons::<T>(b[0], two_way::<T>(ta, tb, Some(a[0]), false));
            }
        },
        Some(m) => {
            if from_first {
                if a.len() == 0 {
                    lemma_sorted_cons::<T>(m, b);
                } else if T::key(a[0]) < T::key(m) {
                    let low = T::key(a[0]);
                    lemma_two_way_sorted::<T>(ta, b, Some(m), true);
                    lemma_bound_lowered::<T>(b, T::key(m), low);
                    lemma_two_way_bounded::<T>(ta, b, Some(m), true, low);
                    lemma_sorted_cons::<T>(a[0], two_way::<T>(ta, b, Some(m), true));
                } else {
                    let low = T::key(m);
                    lemma_two_way_sorted::<T>(ta, b, Some(a[0]), false);
                    lemma_bound_lowered::<T>(ta, T::key(a[0]), low);
                    lemma_two_way_bounded::<T>(ta, b, Some(a[0]), false, low);
                    lemma_sorted_cons::<T>(m, two_way::<T>(ta, b, Some(a[0]), false));
                }
            } else {
                if b.len() == 0 {
                    lemma_sorted_cons::<T>(m, a);
                } else if T::key(b[0]) < T::key(m) {
                    let low = T::key(b[0]);
                    lemma_two_way_sorted::<T>(a, tb, Some(m), false);
                    lemma_bound_lowered::<T>(a, T::key(m), low);
                    lemma_two_way_bounded::<T>(a, tb, Some(m), false, low);
                    lemma_sorted_cons::<T>(b[0], two_way::<T>(a, tb, Some(m), false));
                } else {
                    let low = T::key(m);
                    lemma_two_way_sorted::<T>(a, tb, Some(b[0]), true);
                    lemma_bound_lowered::<T>(tb, T::key(b[0]), low);
                    lemma_two_way_bounded::<T>(a, tb, Some(b[0]), true, low);
                    lemma_sorted_cons::<T>(m, two_way::<T>(a, tb, Some(b[0]), true));
                }
            }
        },
    }
}

/// The items of a sequence are its first item and the items of the rest.
pub proof fn lemma_first_and_rest<V>(s: Seq<V>)
    requires
        s.len() > 0,
    ensures
        s.to_multiset() == seq![s[0]].to_multiset().add(s.drop_first().to_multiset()),
{
    lemma_multiset_commutative(seq![s[0]], s.drop_first());
    assert(seq![s[0]] + s.drop_first() =~= s);
}

/// The items that may be held back.
pub open spec fn held_items<V>(held: Option<V>) -> vstd::multiset::Multiset<V> {
    match held {
        Some(m) => seq![m].to_multiset(),
        None => vstd::multiset::Multiset::empty(),
    }
}

/// The merge hands out every item of the two streams and the item held back,
/// each as often as they hold it.
pub proof fn lemma_two_way_permutation<T: Keyed>(
    a: Seq<T::V>,
    b: Seq<T::V>,
    held: Option<T::V>,
    from_first: bool,
)
    ensures
        two_way::<T>(a, b, held, from_first).to_multiset() == a.to_multiset().add(
            b.to_multiset(),
        ).add(held_items(held)),
    decreases a.len() + b.len(),
{
    broadcast use vstd::multiset::group_multiset_axioms;

    let all = two_way::<T>(a, b, held, from_first);
    let ta = a.drop_first();
    let tb = b.drop_first();
    let none = Seq::<T::V>::empty();
    crate::merge::lemma_empty_to_multiset::<T::V>();
    if a.len() > 0 {
        lemma_first_and_rest(a);
    } else {
        assert(a =~= none);
    }
    if b.len() > 0 {
        lemma_first_and_rest(b);
    } else {
        assert(b =~= none);
    }
    let target = a.to_multiset().add(b.to_multiset()).add(held_items(held));
    match held {
        None => {
            if a.len() == 0 || b.len() == 0 {
                assert(all.to_multiset() =~= target);
            } else if T::key(a[0]) < T::key(b[0]) {
                let tail = two_way::<T>(ta, tb, Some(b[0]), true);
                lemma_two_way_permutation::<T>(ta, tb, Some(b[0]), true);
                lemma_multiset_commutative(seq![a[0]], tail);
                assert(all.to_multiset() =~= target);
            } else {
                let tail = two_way::<T>(ta, tb, Some(a[0]), false);
                lemma_two_way_permutation::<T>(ta, tb, Some(a[0]), false);
                lemma_multiset_commutative(seq![b[0]], tail);
                assert(all.to_multiset() =~= target);
            }
        },
        Some(m) => {
            if from_first {
                if a.len() == 0 {
                    lemma_multiset_commutative(seq![m], b);
                    assert(all.to_multiset() =~= target);
                } else if T::key(a[0]) < T::key(m) {
                    let tail = two_way::<T>(ta, b, Some(m), true);
                    lemma_two_way_permutation::<T>(ta, b, Some(m), true);
                    lemma_multiset_commutative(seq![a[0]], tail);
                    assert(all.to_multiset() =~= target);
                } else {
                    let tail = two_way::<T>(ta, b, Some(a[0]), false);
                    lemma_two_way_permutation::<T>(ta, b, Some(a[0]), false);
                    lemma_multiset_commutative(seq![m], tail);
                    assert(all.to_multiset() =~= target);
                }
            } else {
                if b.len() == 0 {
                    lemma_multiset_commutative(seq![m], a);
                    assert(all.to_multiset() =~= target);
                } else if T::key(b[0]) < T::key(m) {
                    let tail = two_way::<T>(a, tb, Some(m), false);
                    lemma_two_way_permutation::<T>(a, tb, Some(m), false);
                    lemma_multiset_commutative(seq![b[0]], tail);
                    assert(all.to_multiset() =~= target);
                } else {
                    let tail = two_way::<T>(a, tb, Some(b[0]), true);
                    lemma_two_way_permutation::<T>(a, tb, Some(b[0]), true);
                    lemma_multiset_commutative(seq![m], tail);
                    assert(all.to_multiset() =~= target);
                }
            }
        },
    }
}

} // verus!
