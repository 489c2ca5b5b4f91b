//! Pull-based streams of events and the merge of several sorted streams into
//! one.

use crate::merge::{
    advanced, all_live, lemma_merged_without_empty, lemma_min_source, merged, min_source,
};
use core::cmp::Ordering;
use vstd::prelude::*;

verus! {

/// A value with a key by which it is ordered.
pub trait Keyed: View {
    /// The key of a value.
    spec fn key(v: Self::V) -> int;

    /// The key of this value.
    fn sort_key(&self) -> (k: i64)
        ensures
            k == Self::key(self@),
    ;
}

impl Keyed for i64 {
    open spec fn key(v: i64) -> int {
        v as int
    }

    fn sort_key(&self) -> (k: i64) {
        *self
    }
}

/// A source of items that hands them out one by one.
pub trait Stream {
    type Item: View;

    /// The items that are still to come, in their order.
    spec fn remaining(&self) -> Seq<<Self::Item as View>::V>;

    /// Hands out the next item.
    fn next(&mut self) -> (item: Option<Self::Item>)
        ensures
            match item {
                Some(x) => old(self).remaining().len() > 0 && x@ == old(self).remaining()[0]
                    && final(self).remaining() == old(self).remaining().drop_first(),
                None => old(self).remaining().len() == 0 && final(self).remaining().len() == 0,
            },
    ;
}

/// The items of a vector as a stream, first item first.
pub struct VecStream<T> {
    /// What is still to come, last item first.
    stack: Vec<T>,
}

impl<T: View> VecStream<T> {
    /// The views of the items still to come.
    pub closed spec fn items(&self) -> Seq<T::V> {
        Seq::new(self.stack@.len(), |i: int| self.stack@[self.stack@.len() - 1 - i]@)
    }

    /// The stream that hands out `items` from the first on.
    pub fn new(items: Vec<T>) -> (stream: VecStream<T>)
        ensures
            stream.items() == Seq::new(items@.len(), |i: int| items@[i]@),
    {
        let mut input = items;
        let mut stack: Vec<T> = Vec::new();
        let ghost n = items@.len();
        while input.len() > 0
            invariant
                n == items@.len(),
                input@.len() + stack@.len() == n,
                forall|i: int| 0 <= i < input@.len() ==> input@[i] == items@[i],
                forall|i: int| 0 <= i < stack@.len() ==> stack@[i] == items@[n - 1 - i],
            decreases input@.len(),
        {
            let item = input.pop().unwrap();
            stack.push(item);
        }
        let stream = VecStream { stack };
        proof {
            assert(stream.items() =~= Seq::new(items@.len(), |i: int| items@[i]@));
        }
        stream
    }
}

impl<T: View> Stream for VecStream<T> {
    type Item = T;

    open spec fn remaining(&self) -> Seq<T::V> {
        self.items()
    }

    fn next(&mut self) -> (item: Option<T>) {
        let ghost before = self.items();
        let item = self.stack.pop();
        proof {
            if item is Some {
                assert(self.items() =~= before.drop_first());
            }
        }
        item
    }
}

/// A stream with its next item drawn and held, so that streams can be
/// ordered by what they will hand out next.
pub struct OrdIterator<P: Stream> {
    pub head: Option<P::Item>,
    pub rest: P,
}

impl<P: Stream> OrdIterator<P> where P::Item: Keyed {
    /// The items still to come: the held one, then those of the stream.
    pub open spec fn remaining(&self) -> Seq<<P::Item as View>::V> {
        match self.head {
            Some(h) => seq![h@] + self.rest.remaining(),
            None => Seq::empty(),
        }
    }

    /// Draws the first item of `source` and holds it.
    pub fn new(source: P) -> (held: Self)
        ensures
            held.remaining() == source.remaining(),
    {
        let mut rest = source;
        let ghost all = source.remaining();
        let head = rest.next();
        let held = OrdIterator { head, rest };
        proof {
            assert(held.remaining() =~= all);
        }
        held
    }

    /// The key of the item that comes next.
    pub fn peek_key(&self) -> (k: Option<i64>)
        ensures
            match k {
                Some(v) => self.remaining().len() > 0 && v == P::Item::key(self.remaining()[0]),
                None => self.remaining().len() == 0,
            },
    {
        match &self.head {
            Some(h) => Some(h.sort_key()),
            None => None,
        }
    }

    /// Hands out the held item and draws the one after it.
    pub fn next(&mut self) -> (item: Option<P::Item>)
        ensures
            match item {
                Some(x) => old(self).remaining().len() > 0 && x@ == old(self).remaining()[0]
                    && final(self).remaining() == old(self).remaining().drop_first(),
                None => old(self).remaining().len() == 0 && final(self).remaining().len() == 0,
            },
    {
        let ghost before = self.remaining();
        let item = self.head.take();
        if item.is_some() {
            let ghost tail = self.rest.remaining();
            self.head = self.rest.next();
            proof {
                assert(self.remaining() =~= tail);
                assert(before.drop_first() =~= tail);
            }
        }
        item
    }

    /// Whether both have run out, or the items that come next have the same key.
    pub fn eq(&self, other: &Self) -> (same: bool)
        ensures
            same == if self.remaining().len() == 0 || other.remaining().len() == 0 {
                self.remaining().len() == 0 && other.remaining().len() == 0
            } else {
                P::Item::key(self.remaining()[0]) == P::Item::key(other.remaining()[0])
            },
    {
        match (self.peek_key(), other.peek_key()) {
            (None, None) => true,
            (Some(a), Some(b)) => a == b,
            _ => false,
        }
    }

    /// Orders two streams by the items that come next, the other way round:
    /// the stream whose next item has the lesser key is the greater. There is
    /// no order where either has run out.
    pub fn partial_cmp(&self, other: &Self) -> (order: Option<Ordering>)
        ensures
            match order {
                Some(Ordering::Less) => self.remaining().len() > 0 && other.remaining().len() > 0
                    && P::Item::key(self.remaining()[0]) > P::Item::key(other.remaining()[0]),
                Some(Ordering::Equal) => self.remaining().len() > 0 && other.remaining().len() > 0
                    && P::Item::key(self.remaining()[0]) == P::Item::key(other.remaining()[0]),
                Some(Ordering::Greater) => self.remaining().len() > 0 && other.remaining().len()
                    > 0 && P::Item::key(self.remaining()[0]) < P::Item::key(other.remaining()[0]),
                None => self.remaining().len() == 0 || other.remaining().len() == 0,
            },
    {
        match (self.peek_key(), other.peek_key()) {
            (Some(a), Some(b)) => {
                if a < b {
                    Some(Ordering::Greater)
                } else if a > b {
                    Some(Ordering::Less)
                } else {
                    Some(Ordering::Equal)
                }
            },
            _ => None,
        }
    }

    /// Orders two streams that both have an item to hand out, as `partial_cmp`
    /// does.
    pub fn cmp(&self, other: &Self) -> (order: Ordering)
        requires
            self.remaining().len() > 0,
            other.remaining().len() > 0,
        ensures
            match order {
                Ordering::Less => P::Item::key(self.remaining()[0]) > P::Item::key(
                    other.remaining()[0],
                ),
                Ordering::Equal => P::Item::key(self.remaining()[0]) == P::Item::key(
                    other.remaining()[0],
                ),
                Ordering::Greater => P::Item::key(self.remaining()[0]) < P::Item::key(
                    other.remaining()[0],
                ),
            },
    {
        self.partial_cmp(other).unwrap()
    }

    /// Whether this stream comes before `other` in the merge: its next item has
    /// the lesser key.
    pub fn precedes(&self, other: &Self) -> (first: bool)
        ensures
            first == (self.remaining().len() > 0 && other.remaining().len() > 0 && P::Item::key(
                self.remaining()[0],
            ) < P::Item::key(other.remaining()[0])),
    {
        match self.partial_cmp(other) {
            Some(Ordering::Greater) => true,
            _ => false,
        }
    }
}

/// What each of the held streams has still to hand out.
pub open spec fn sources_of<P: Stream>(heap: Seq<OrdIterator<P>>) -> Seq<
    Seq<<P::Item as View>::V>,
> where P::Item: Keyed {
    Seq::new(heap.len(), |i: int| heap[i].remaining())
}

/// The merge of several streams: it hands out the items of all of them,
/// always the one with the least key next. Streams that are sorted by key
/// merge into a stream that is sorted by key.
pub struct SortedIterator<P: Stream> {
    pub heap: Vec<OrdIterator<P>>,
}

impl<P: Stream> SortedIterator<P> where P::Item: Keyed {
    /// What each of the merged streams has still to hand out.
    pub open spec fn sources(&self) -> Seq<Seq<<P::Item as View>::V>> {
        sources_of(self.heap@)
    }

    /// The merge of the given streams. Among items of the same key, the one of
    /// the stream that stands first in `sources` comes first. Streams that
    /// have nothing to hand out are not kept.
    pub fn from_iter(sources: Vec<P>) -> (merge: Self)
        ensures
            merge.remaining() == merged::<P::Item>(
                Seq::new(sources@.len(), |i: int| sources@[i].remaining()),
            ),
            all_live(merge.sources()),
    {
        let ghost n = sources@.len();
        let ghost given = Seq::new(sources@.len(), |i: int| sources@[i].remaining());
        let mut input = sources;
        let mut stack: Vec<P> = Vec::new();
        while input.len() > 0
            invariant
                n == sources@.len(),
                input@.len() + stack@.len() == n,
                forall|i: int| 0 <= i < input@.len() ==> input@[i] == sources@[i],
                forall|i: int| 0 <= i < stack@.len() ==> stack@[i] == sources@[n - 1 - i],
            decreases input@.len(),
        {
            let source = input.pop().unwrap();
            stack.push(source);
        }
        let mut heap: Vec<OrdIterator<P>> = Vec::new();
        while stack.len() > 0
            invariant
                n == sources@.len(),
                heap@.len() + stack@.len() == n,
                forall|i: int| 0 <= i < stack@.len() ==> stack@[i] == sources@[n - 1 - i],
                forall|i: int|
                    0 <= i < heap@.len() ==> (#[trigger] heap@[i]).remaining()
                        == sources@[i].remaining(),
            decreases stack@.len(),
        {
            let source = stack.pop().unwrap();
            heap.push(OrdIterator::new(source));
        }
        proof {
            assert(sources_of(heap@) =~= given);
        }
        let mut i: usize = 0;
        while i < heap.len()
            invariant
                i <= heap@.len(),
                merged::<P::Item>(sources_of(heap@)) == merged::<P::Item>(given),
                forall|j: int| 0 <= j < i ==> (#[trigger] sources_of(heap@)[j]).len() > 0,
            decreases heap@.len() - i,
        {
            if heap[i].peek_key().is_none() {
                let ghost before = heap@;
                heap.remove(i);
                proof {
                    lemma_merged_without_empty::<P::Item>(sources_of(before), i as int);
                    assert(sources_of(heap@) =~= sources_of(before).remove(i as int));
                }
            } else {
                i = i + 1;
            }
        }
        SortedIterator { heap }
    }

    /// The index of the stream that hands out the next item of the merge.
    fn first_least(&self) -> (best: Option<usize>)
        ensures
            match best {
                Some(i) => i < self.heap@.len() && min_source::<P::Item>(
                    self.sources(),
                    self.heap@.len() as int,
                ) == Some(i as int),
                None => min_source::<P::Item>(self.sources(), self.heap@.len() as int) is None,
            },
    {
        let mut best: Option<usize> = None;
        let mut i: usize = 0;
        while i < self.heap.len()
            invariant
                i <= self.heap@.len(),
                match best {
                    Some(b) => b < i && min_source::<P::Item>(self.sources(), i as int) == Some(
                        b as int,
                    ),
                    None => min_source::<P::Item>(self.sources(), i as int) is None,
                },
            decreases self.heap@.len() - i,
        {
            proof {
                lemma_min_source::<P::Item>(self.sources(), i as int);
            }
            match best {
                Some(b) => {
                    if self.heap[i].precedes(&self.heap[b]) {
                        best = Some(i);
                    }
                },
                None => {
                    if self.heap[i].peek_key().is_some() {
                        best = Some(i);
                    }
                },
            }
            i = i + 1;
        }
        best
    }
}

impl<P: Stream> Stream for SortedIterator<P> where P::Item: Keyed {
    type Item = P::Item;

    open spec fn remaining(&self) -> Seq<<P::Item as View>::V> {
        merged::<P::Item>(self.sources())
    }

    fn next(&mut self) -> (item: Option<P::Item>)
        ensures
            all_live(old(self).sources()) ==> all_live(final(self).sources()),
    {
        let ghost before = self.sources();
        proof {
            lemma_min_source::<P::Item>(before, before.len() as int);
        }
        match self.first_least() {
            Some(i) => {
                let item = self.heap[i].next();
                proof {
                    assert(self.sources() =~= advanced(before, i as int));
                    assert(merged::<P::Item>(before).drop_first() =~= merged::<P::Item>(
                        advanced(before, i as int),
                    ));
                }
                if self.heap[i].peek_key().is_none() {
                    let ghost kept = self.sources();
                    self.heap.remove(i);
                    proof {
                        lemma_merged_without_empty::<P::Item>(kept, i as int);
                        assert(self.sources() =~= kept.remove(i as int));
                        if all_live(before) {
                            assert forall|j: int| 0 <= j < self.sources().len() implies (
                            #[trigger] self.sources()[j]).len() > 0 by {
                                if j < i {
                                    assert(self.sources()[j] == before[j]);
                                } else {
                                    assert(self.sources()[j] == before[j + 1]);
                                }
                            }
                        }
                    }
                } else {
                    proof {
                        if all_live(before) {
                            assert forall|j: int| 0 <= j < self.sources().len() implies (
                            #[trigger] self.sources()[j]).len() > 0 by {
                                if j != i {
                                    assert(self.sources()[j] == before[j]);
                                }
                            }
                        }
                    }
                }
                item
            },
            None => None,
        }
    }
}

} // verus!
