//! A lookahead buffer of fixed capacity, kept in a ring of slots.
use vstd::arithmetic::div_mod::{lemma_mod_self_0, lemma_small_mod};
use vstd::prelude::*;
use vstd::std_specs::iter::IteratorSpec;

use crate::feed::Feed;
#[allow(unused_imports)]
use crate::ribbon::{appended, front_of, kept, lawful, lemma_kept_push, queued, Ribbon};

verus! {

/// A [`Ribbon`] of capacity `N`, backed by `N` slots that each hold an item or nothing. It never
/// holds more than `N` items: growing a full `Band` drops its oldest item.
///
/// The held items sit in `len` consecutive slots from `head` on, wrapping round past the last
/// slot to the first.
#[derive(Debug)]
pub struct Band<const N: usize, I: Iterator> {
    feed: Feed<I>,
    slots: Vec<Option<I::Item>>,
    head: usize,
    len: usize,
}

impl<const N: usize, I: Iterator> Band<N, I> {
    /// In a ring of `N` slots whose front item sits at `head`, the slot of the item at
    /// position `k`, for `0 <= k < N`.
    pub open spec fn ring_slot(head: int, k: int) -> int {
        if head + k < N { head + k } else { head + k - N }
    }

    /// `slots` hold items exactly at the `len` positions from `head` on.
    pub open spec fn ring_ok(slots: Seq<Option<I::Item>>, head: int, len: int) -> bool {
        &&& N >= 1
        &&& slots.len() == N
        &&& 0 <= head < N
        &&& 0 <= len <= N
        &&& forall|k: int| 0 <= k < N ==> (#[trigger] slots[Self::ring_slot(head, k)] is Some <==> k < len)
    }

    /// The items of the ring, front first.
    pub open spec fn ring_items(slots: Seq<Option<I::Item>>, head: int, len: int) -> Seq<I::Item> {
        Seq::new(len as nat, |k: int| slots[Self::ring_slot(head, k)]->0)
    }

    #[verifier::inline]
    spec fn slot(&self, k: int) -> int {
        Self::ring_slot(self.head as int, k)
    }

    /// The ring invariant of this `Band`'s slots.
    pub closed spec fn well_formed(&self) -> bool {
        Self::ring_ok(self.slots@, self.head as int, self.len as int)
    }

    /// The held items, front first.
    pub closed spec fn held(&self) -> Seq<I::Item> {
        Self::ring_items(self.slots@, self.head as int, self.len as int)
    }

    /// The source with its lookahead.
    pub closed spec fn feed(&self) -> Feed<I> {
        self.feed
    }

    /// Creates an empty `Band` over `iter`.
    pub fn new(iter: I) -> (b: Band<N, I>)
        requires
            N >= 1,
        ensures
            b.inv(),
            b.items() == Seq::<I::Item>::empty(),
            b.source() == iter,
            b.lookahead() is None,
    {
        let mut slots: Vec<Option<I::Item>> = Vec::new();
        let mut i: usize = 0;
        while i < N
            invariant
                i <= N,
                slots@.len() == i,
                forall|j: int| 0 <= j < i ==> slots@[j] is None,
            decreases N - i,
        {
            slots.push(None);
            i = i + 1;
        }
        Band { feed: Feed::new(iter), slots, head: 0, len: 0 }
    }

    /// Hands out items one at a time: refills an empty `Band` to capacity from the source,
    /// then removes and returns the front item. Returns `None` once the source is exhausted
    /// and no item is held.
    pub fn next(&mut self) -> (r: Option<I::Item>)
        requires
            old(self).inv(),
        ensures
            final(self).inv(),
            lawful(final(self).source()) == lawful(old(self).source()),
            lawful(old(self).source()) ==> ({
                let q = queued(old(self).lookahead(), IteratorSpec::remaining(&old(self).source()));
                let q2 = queued(final(self).lookahead(), IteratorSpec::remaining(&final(self).source()));
                let used = if old(self).items().len() > 0 {
                    0
                } else if N < q.len() {
                    N as int
                } else {
                    q.len() as int
                };
                let s = old(self).items() + q.take(used);
                &&& r == front_of(s)
                &&& final(self).items() == if s.len() > 0 { s.drop_first() } else { s }
                &&& q2 == q.skip(used)
            }),
    {
        let ghost start = *self;
        if self.is_empty() {
            self.expand_n(N);
        }
        proof {
            if lawful(start.source()) && start.items().len() > 0 {
                let q = queued(start.lookahead(), IteratorSpec::remaining(&start.source()));
                assert(start.items() + q.take(0) =~= start.items());
                assert(q.skip(0) =~= q);
            }
        }
        self.pop_front()
    }

    /// The slot of the item at position `k`, computed without overflow.
    fn position(&self, k: usize) -> (r: usize)
        requires
            self.well_formed(),
            k < N,
        ensures
            r == self.slot(k as int),
    {
        if k < N - self.head {
            self.head + k
        } else {
            k - (N - self.head)
        }
    }

    /// Two positions below `N` share a slot only where they are equal.
    proof fn lemma_slot_injective(&self, j: int, k: int)
        requires
            self.head < N,
            0 <= j < N,
            0 <= k < N,
            self.slot(j) == self.slot(k),
        ensures
            j == k,
    {
    }

    /// Removes the front item and returns it, moving `head` on by one slot; `None` on an empty
    /// `Band`. No item is moved.
    fn slide(&mut self) -> (r: Option<I::Item>)
        requires
            old(self).well_formed(),
        ensures
            final(self).well_formed(),
            final(self).feed == old(self).feed,
            r == front_of(old(self).held()),
            final(self).held() == if old(self).len > 0 {
                old(self).held().drop_first()
            } else {
                old(self).held()
            },
    {
        if self.len == 0 {
            return None;
        }
        let ghost prev = *self;
        let mut first: Option<I::Item> = None;
        self.slots.set_and_swap(self.head, &mut first);
        self.incr_head();
        self.len = self.len - 1;
        proof {
            assert(prev.slot(0) == prev.head);
            assert forall|k: int| 0 <= k < N - 1 implies self.slot(k) == prev.slot(k + 1) by {}
            assert(self.slot(N - 1) == prev.head);
            assert forall|k: int| 0 <= k < N implies (#[trigger] self.slots@[self.slot(k)] is Some
                <==> k < self.len) by {
                if k < N - 1 {
                    if prev.slot(k + 1) == prev.slot(0) {
                        prev.lemma_slot_injective(k + 1, 0);
                    }
                    assert(prev.slots@[prev.slot(k + 1)] is Some <==> k + 1 < prev.len);
                }
            }
            assert forall|k: int| 0 <= k < self.len implies #[trigger] self.held()[k]
                == prev.held().drop_first()[k] by {
                if prev.slot(k + 1) == prev.slot(0) {
                    prev.lemma_slot_injective(k + 1, 0);
                }
            }
            assert(self.held() =~= prev.held().drop_first());
        }
        first
    }

    /// Whether the `Band` holds `N` items.
    fn is_full(&self) -> (r: bool)
        requires
            self.well_formed(),
        ensures
            r == (self.held().len() == N),
    {
        self.len == N
    }

    /// Moves `head` on by one slot, wrapping round from the last slot to the first.
    fn incr_head(&mut self)
        requires
            old(self).head < N,
        ensures
            final(self).head == if old(self).head + 1 < N { old(self).head + 1 } else { 0 },
            final(self).slots == old(self).slots,
            final(self).len == old(self).len,
            final(self).feed == old(self).feed,
    {
        proof {
            if self.head + 1 < N {
                lemma_small_mod((self.head + 1) as nat, N as nat);
            } else {
                lemma_mod_self_0(N as int);
            }
        }
        self.head = (self.head + 1) % N;
    }

    /// The slot of the back item of a non-empty `Band`.
    fn tail(&self) -> (r: usize)
        requires
            self.well_formed(),
            self.len > 0,
        ensures
            r == self.slot(self.len - 1),
    {
        self.position(self.len - 1)
    }

    /// Adds `x` at the back, first taking out the front item where the `Band` is full; returns
    /// the item taken out.
    fn take_in(&mut self, x: I::Item) -> (r: Option<I::Item>)
        requires
            old(self).well_formed(),
        ensures
            final(self).well_formed(),
            final(self).feed == old(self).feed,
            r == if old(self).held().len() == N { front_of(old(self).held()) } else { None },
            final(self).held() == appended(old(self).held(), old(self).held().len() == N, x),
    {
        assert(self.held().len() == self.len);
        let evicted = if self.is_full() {
            self.slide()
        } else {
            None
        };
        let ghost prev = *self;
        assert(self.held().len() == self.len);
        let t = self.position(self.len);
        self.slots.set(t, Some(x));
        self.len = self.len + 1;
        proof {
            assert forall|k: int| 0 <= k < N implies (#[trigger] self.slots@[self.slot(k)] is Some
                <==> k < self.len) by {
                if self.slot(k) == prev.slot(prev.len as int) {
                    self.lemma_slot_injective(k, prev.len as int);
                }
                assert(prev.slots@[prev.slot(k)] is Some <==> k < prev.len);
            }
            assert forall|k: int| 0 <= k < prev.len implies #[trigger] self.held()[k]
                == prev.held()[k] by {
                if self.slot(k) == prev.slot(prev.len as int) {
                    self.lemma_slot_injective(k, prev.len as int);
                }
            }
            assert(self.held() =~= prev.held().push(x));
        }
        evicted
    }
}

impl<const N: usize, I: Iterator> Ribbon<I::Item> for Band<N, I> {
    type Source = I;

    open spec fn inv(&self) -> bool {
        self.well_formed()
    }

    open spec fn items(&self) -> Seq<I::Item> {
        self.held()
    }

    open spec fn source(&self) -> I {
        self.feed().source()
    }

    open spec fn lookahead(&self) -> Option<I::Item> {
        self.feed().lookahead()
    }

    open spec fn bound(&self) -> Option<nat> {
        Some(N as nat)
    }

    open spec fn streams(&self) -> bool {
        self.items().len() == N
    }

    proof fn lemma_within_bound(&self) {
    }

    fn progress(&mut self) -> (r: Option<I::Item>) {
        let next = match self.feed.pull() {
            Some(x) => x,
            None => return None,
        };
        self.take_in(next)
    }

    fn expand(&mut self) -> (r: bool) {
        match self.feed.pull() {
            Some(x) => {
                let ghost prev = *self;
                self.take_in(x);
                proof {
                    lemma_kept_push(prev.held(), Some(N as nat), x);
                    assert(appended(prev.held(), prev.held().len() == N, x)
                        =~= kept(prev.held().push(x), Some(N as nat)));
                }
                true
            },
            None => false,
        }
    }

    fn expand_while<F>(&mut self, f: F) -> (r: bool)
        where
            F: Fn(&I::Item) -> bool,
    {
        let ghost start = *self;
        let ghost q = queued(start.lookahead(), IteratorSpec::remaining(&start.source()));
        let ghost mut k: int = 0;
        let mut grown = false;
        proof {
            assert(start.held() + q.take(0) =~= start.held());
            assert(q.skip(0) =~= q);
        }
        loop
            invariant
                self.well_formed(),
                lawful(self.source()),
                IteratorSpec::decrease(&self.source()) is Some,
                forall|x: &I::Item| #[trigger] f.requires((x,)),
                q == queued(start.lookahead(), IteratorSpec::remaining(&start.source())),
                0 <= k <= q.len(),
                forall|j: int| 0 <= j < k ==> #[trigger] f.ensures((&q[j],), true),
                grown == (k > 0),
                self.held() == kept(start.held() + q.take(k), Some(N as nat)),
                queued(self.lookahead(), IteratorSpec::remaining(&self.source())) == q.skip(k),
            ensures
                k == q.len() || f.ensures((&q[k],), false),
            decreases self.feed.measure(),
        {
            self.feed.fill();
            let go = match self.feed.upcoming() {
                Some(x) => {
                    proof {
                        assert(q.skip(k)[0] == q[k]);
                        assert(*x == q[k]);
                    }
                    f(x)
                },
                None => false,
            };
            if !go {
                break;
            }
            if let Some(x) = self.feed.pull() {
                self.take_in(x);
                proof {
                    lemma_kept_push(start.held() + q.take(k), Some(N as nat), x);
                    assert((start.held() + q.take(k)).push(x) =~= start.held() + q.take(k + 1));
                    assert(q.skip(k).drop_first() =~= q.skip(k + 1));
                    k = k + 1;
                }
            }
            grown = true;
        }
        grown
    }

    fn pop_front(&mut self) -> (r: Option<I::Item>) {
        self.slide()
    }

    fn pop_back(&mut self) -> (r: Option<I::Item>) {
        if self.len == 0 {
            return None;
        }
        let ghost prev = *self;
        let t = self.tail();
        let mut back: Option<I::Item> = None;
        self.slots.set_and_swap(t, &mut back);
        self.len = self.len - 1;
        proof {
            assert forall|k: int| 0 <= k < N implies (#[trigger] self.slots@[self.slot(k)] is Some
                <==> k < self.len) by {
                if self.slot(k) == prev.slot(self.len as int) {
                    self.lemma_slot_injective(k, self.len as int);
                }
                assert(prev.slots@[prev.slot(k)] is Some <==> k < prev.len);
            }
            assert forall|k: int| 0 <= k < self.len implies #[trigger] self.held()[k]
                == prev.held()[k] by {
                if self.slot(k) == prev.slot(self.len as int) {
                    self.lemma_slot_injective(k, self.len as int);
                }
            }
            assert(self.held() =~= prev.held().drop_last());
        }
        back
    }

    fn peek_at(&self, index: usize) -> (r: Option<&I::Item>) {
        if index >= N || index >= self.len {
            return None;
        }
        let idx = self.position(index);
        self.slots[idx].as_ref()
    }

    fn peek_at_mut(&mut self, index: usize) -> (r: Option<&mut I::Item>) {
        if index >= N || index >= self.len {
            return None;
        }
        let idx = self.position(index);
        self.slots[idx].as_mut()
    }

    fn len(&self) -> (r: usize) {
        self.len
    }
}

impl<const N: usize, I: Iterator + Clone> Clone for Band<N, I> where I::Item: Clone {
    /// A copy with a clone of the source and of each held item, in the same order.
    fn clone(&self) -> (r: Self)
        ensures
            cloned(self.source(), r.source()),
            self.lookahead() is None ==> r.lookahead() is None,
            self.lookahead() matches Some(x) ==> r.lookahead() matches Some(y) && cloned(x, y),
            self.inv() ==> {
                &&& r.inv()
                &&& r.items().len() == self.items().len()
                &&& forall|i: int|
                    0 <= i < self.items().len() ==> cloned(self.items()[i], #[trigger] r.items()[i])
            },
    {
        let r = Band {
            feed: self.feed.clone(),
            slots: self.slots.clone(),
            head: self.head,
            len: self.len,
        };
        proof {
            if self.inv() {
                assert forall|k: int| 0 <= k < N implies (#[trigger] r.slots@[r.slot(k)] is Some
                    <==> k < r.len) by {
                    assert(self.slots@[self.slot(k)] is Some <==> k < self.len);
                    assert(cloned(self.slots@[self.slot(k)], r.slots@[r.slot(k)]));
                }
                assert forall|i: int| 0 <= i < self.items().len() implies cloned(
                    self.items()[i],
                    #[trigger] r.items()[i],
                ) by {
                    assert(cloned(self.slots@[self.slot(i)], r.slots@[r.slot(i)]));
                }
            }
        }
        r
    }
}

} // verus!
