//! An unbounded lookahead buffer backed by a `VecDeque`.
use std::collections::VecDeque;
use vstd::prelude::*;
use vstd::std_specs::iter::IteratorSpec;

use crate::feed::Feed;
#[allow(unused_imports)]
use crate::ribbon::{front_of, lawful, queued, Ribbon};

verus! {

/// A [`Ribbon`] that holds any number of items in a `VecDeque`. Growing it never drops an item.
#[derive(Debug)]
pub struct Tape<I: Iterator> {
    feed: Feed<I>,
    tape: VecDeque<I::Item>,
}

/// Relies on `VecDeque::get_mut`: a mutable reference to the element at `index`, or `None`
/// where `index` is out of bounds. Writing through the reference replaces that element.
#[verifier::external_body]
fn deque_get_mut<T>(d: &mut VecDeque<T>, index: usize) -> (r: Option<&mut T>)
    ensures
        index < old(d)@.len() ==> {
            &&& r is Some
            &&& *r->0 == old(d)@[index as int]
            &&& final(d)@ == old(d)@.update(index as int, *final(r->0))
        },
        index >= old(d)@.len() ==> r is None && final(d)@ == old(d)@,
{
    d.get_mut(index)
}

impl<I: Iterator> Tape<I> {
    /// The source with its lookahead.
    pub closed spec fn feed(&self) -> Feed<I> {
        self.feed
    }

    /// The held items, front first.
    pub closed spec fn held(&self) -> Seq<I::Item> {
        self.tape@
    }

    /// Creates an empty `Tape` over `iter`.
    pub fn new(iter: I) -> (t: Tape<I>)
        ensures
            t.inv(),
            t.items() == Seq::<I::Item>::empty(),
            t.source() == iter,
            t.lookahead() is None,
    {
        Tape { feed: Feed::new(iter), tape: VecDeque::new() }
    }

    /// Hands out items one at a time: draws one item into an empty `Tape`, then removes and
    /// returns the front item. Returns `None` once the source is exhausted and no item is held.
    pub fn next(&mut self) -> (r: Option<I::Item>)
        requires
            old(self).inv(),
        ensures
            final(self).inv(),
            lawful(final(self).source()) == lawful(old(self).source()),
            lawful(old(self).source()) ==> ({
                let q = queued(old(self).lookahead(), IteratorSpec::remaining(&old(self).source()));
                let q2 = queued(final(self).lookahead(), IteratorSpec::remaining(&final(self).source()));
                let used = if old(self).items().len() > 0 || q.len() == 0 { 0int } else { 1int };
                let s = old(self).items() + q.take(used);
                &&& r == front_of(s)
                &&& final(self).items() == if s.len() > 0 { s.drop_first() } else { s }
                &&& q2 == q.skip(used)
            }),
    {
        let ghost start = *self;
        if self.is_empty() {
            self.expand();
        }
        proof {
            if lawful(start.source()) {
                let q = queued(start.lookahead(), IteratorSpec::remaining(&start.source()));
                assert(start.items() + q.take(0) =~= start.items());
                assert(q.skip(0) =~= q);
                assert(q.len() > 0 ==> start.items() + q.take(1) =~= start.items().push(q[0]));
                assert(q.len() > 0 ==> q.skip(1) =~= q.drop_first());
            }
        }
        self.pop_front()
    }
}

impl<I: Iterator> Ribbon<I::Item> for Tape<I> {
    type Source = I;

    open spec fn inv(&self) -> bool {
        true
    }

    open spec fn items(&self) -> Seq<I::Item> {
        self.held()
    }

    open spec fn source(&self) -> I {
        self.feed().source()
    }

    open spec fn lookahead(&self) -> Option<I::Item> {
        self.feed().lookahead()
    }

    open spec fn bound(&self) -> Option<nat> {
        None
    }

    open spec fn streams(&self) -> bool {
        self.items().len() > 0
    }

    proof fn lemma_within_bound(&self) {
    }

    fn progress(&mut self) -> (r: Option<I::Item>) {
        let next = match self.feed.pull() {
            Some(x) => x,
            None => return None,
        };
        let head = self.tape.pop_front();
        self.tape.push_back(next);
        head
    }

    fn expand(&mut self) -> (r: bool) {
        match self.feed.pull() {
            Some(item) => {
                self.tape.push_back(item);
                true
            },
            None => false,
        }
    }

    fn expand_while<F>(&mut self, f: F) -> (r: bool)
        where
            F: Fn(&I::Item) -> bool,
    {
        let ghost start = *self;
        let ghost q = queued(start.lookahead(), IteratorSpec::remaining(&start.source()));
        let ghost mut k: int = 0;
        let mut expanded = false;
        proof {
            assert(start.held() + q.take(0) =~= start.held());
            assert(q.skip(0) =~= q);
        }
        loop
            invariant
                lawful(self.source()),
                IteratorSpec::decrease(&self.source()) is Some,
                forall|x: &I::Item| #[trigger] f.requires((x,)),
                q == queued(start.lookahead(), IteratorSpec::remaining(&start.source())),
                0 <= k <= q.len(),
                forall|j: int| 0 <= j < k ==> #[trigger] f.ensures((&q[j],), true),
                expanded == (k > 0),
                self.held() == start.held() + q.take(k),
                queued(self.lookahead(), IteratorSpec::remaining(&self.source())) == q.skip(k),
            ensures
                k == q.len() || f.ensures((&q[k],), false),
            decreases self.feed.measure(),
        {
            self.feed.fill();
            let go = match self.feed.upcoming() {
                Some(item) => {
                    proof {
                        assert(q.skip(k)[0] == q[k]);
                        assert(*item == q[k]);
                    }
                    f(item)
                },
                None => false,
            };
            if !go {
                break;
            }
            if let Some(item) = self.feed.pull() {
                self.tape.push_back(item);
                proof {
                    assert((start.held() + q.take(k)).push(item) =~= start.held() + q.take(k + 1));
                    assert(q.skip(k).drop_first() =~= q.skip(k + 1));
                    k = k + 1;
                }
            }
            expanded = true;
        }
        expanded
    }

    fn pop_front(&mut self) -> (r: Option<I::Item>) {
        let r = self.tape.pop_front();
        proof {
            if r is Some {
                assert(self.held() =~= old(self).held().drop_first());
            }
        }
        r
    }

    fn pop_back(&mut self) -> (r: Option<I::Item>) {
        let r = self.tape.pop_back();
        proof {
            if r is Some {
                assert(self.held() =~= old(self).held().drop_last());
            }
        }
        r
    }

    fn peek_at(&self, index: usize) -> (r: Option<&I::Item>) {
        if index < self.tape.len() {
            Some(&self.tape[index])
        } else {
            None
        }
    }

    fn peek_at_mut(&mut self, index: usize) -> (r: Option<&mut I::Item>) {
        deque_get_mut(&mut self.tape, index)
    }

    fn len(&self) -> (r: usize) {
        self.tape.len()
    }
}

impl<I: Iterator> From<I> for Tape<I> {
    fn from(value: I) -> (t: Self)
        ensures
            t.inv(),
            t.items() == Seq::<I::Item>::empty(),
            t.source() == value,
            t.lookahead() is None,
    {
        Tape::new(value)
    }
}

impl<I: Iterator> vstd::std_specs::convert::FromSpecImpl<I> for Tape<I> {
    open spec fn obeys_from_spec() -> bool {
        false
    }

    open spec fn from_spec(v: I) -> Self {
        arbitrary()
    }
}

impl<I: Iterator + Clone> Clone for Tape<I> where I::Item: Clone {
    /// A copy with a clone of the source and of each held item, in the same order.
    fn clone(&self) -> (r: Self)
        ensures
            cloned(self.source(), r.source()),
            self.lookahead() is None ==> r.lookahead() is None,
            self.lookahead() matches Some(x) ==> r.lookahead() matches Some(y) && cloned(x, y),
            r.items().len() == self.items().len(),
            forall|i: int|
                0 <= i < self.items().len() ==> cloned(self.items()[i], #[trigger] r.items()[i]),
    {
        Self { feed: self.feed.clone(), tape: self.tape.clone() }
    }
}

} // verus!
