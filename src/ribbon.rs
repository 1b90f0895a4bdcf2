//! The operations that every lookahead buffer offers, and the model they are stated over.
use vstd::prelude::*;
use vstd::std_specs::iter::IteratorSpec;

use crate::band::Band;
use crate::tape::Tape;

verus! {

/// Whether an iterator obeys Verus's laws for `next`: it yields the items of
/// `IteratorSpec::remaining` in order, then `None` for good.
pub open spec fn lawful<I: Iterator>(iter: I) -> bool {
    IteratorSpec::obeys_prophetic_iter_laws(&iter)
}

/// The items still to come from a source: an item already drawn, if any, then `rest`.
pub open spec fn queued<T>(ahead: Option<T>, rest: Seq<T>) -> Seq<T> {
    match ahead {
        Some(x) => seq![x] + rest,
        None => rest,
    }
}

/// The last `n` items of `s` when `bound` is `Some(n)`; all of `s` when there is no bound.
pub open spec fn kept<T>(s: Seq<T>, bound: Option<nat>) -> Seq<T> {
    match bound {
        Some(n) => if s.len() > n { s.subrange(s.len() - n, s.len() as int) } else { s },
        None => s,
    }
}

/// `items` with `x` added at the back, after the front item is dropped when `evict` holds.
pub open spec fn appended<T>(items: Seq<T>, evict: bool, x: T) -> Seq<T> {
    if evict { items.drop_first().push(x) } else { items.push(x) }
}

/// A buffer that holds items drawn from an iterator (its source) and lets them be looked at,
/// changed and taken out from either end.
///
/// The model: `items()` are the held items, oldest first; the items still to come are
/// `queued(lookahead(), IteratorSpec::remaining(&source()))`. What is said of the items still to
/// come holds where the source is `lawful`.
pub trait Ribbon<T>: Sized {
    /// The iterator the items are drawn from.
    type Source: Iterator<Item = T>;

    /// The buffer's internal invariant.
    spec fn inv(&self) -> bool;

    /// The held items, oldest first.
    spec fn items(&self) -> Seq<T>;

    /// The wrapped iterator.
    spec fn source(&self) -> Self::Source;

    /// An item already drawn from the source and not yet held.
    spec fn lookahead(&self) -> Option<T>;

    /// The most items the buffer holds; `None` where it has no bound.
    spec fn bound(&self) -> Option<nat>;

    /// Whether `progress` hands out the front item while it adds a new one at the back.
    spec fn streams(&self) -> bool;

    /// A buffer with a bound never holds more items than the bound.
    proof fn lemma_within_bound(&self)
        requires
            self.inv(),
        ensures
            self.bound() matches Some(n) ==> self.items().len() <= n,
    ;

    /// Draws one item from the source and adds it at the back. Where the buffer `streams`, the
    /// front item leaves and is returned; otherwise nothing is returned. Once the source is
    /// exhausted this changes nothing and returns `None`.
    fn progress(&mut self) -> (r: Option<T>)
        requires
            old(self).inv(),
        ensures
            final(self).inv(),
            final(self).bound() == old(self).bound(),
            lawful(final(self).source()) == lawful(old(self).source()),
            lawful(old(self).source()) ==> ({
                let q = queued(old(self).lookahead(), IteratorSpec::remaining(&old(self).source()));
                let q2 = queued(final(self).lookahead(), IteratorSpec::remaining(&final(self).source()));
                if q.len() == 0 {
                    &&& r is None
                    &&& final(self).items() == old(self).items()
                    &&& q2 == q
                } else {
                    &&& r == if old(self).streams() { Some(old(self).items()[0]) } else { None }
                    &&& final(self).items() == appended(old(self).items(), old(self).streams(), q[0])
                    &&& q2 == q.drop_first()
                }
            }),
    ;

    /// Draws one item from the source and adds it at the back, dropping the front item first
    /// where the buffer is at its bound. Returns whether an item was added: `false` exactly when
    /// the source is exhausted, and then nothing changes.
    fn expand(&mut self) -> (r: bool)
        requires
            old(self).inv(),
        ensures
            final(self).inv(),
            final(self).bound() == old(self).bound(),
            lawful(final(self).source()) == lawful(old(self).source()),
            lawful(old(self).source()) ==> ({
                let q = queued(old(self).lookahead(), IteratorSpec::remaining(&old(self).source()));
                let q2 = queued(final(self).lookahead(), IteratorSpec::remaining(&final(self).source()));
                &&& r == (q.len() > 0)
                &&& final(self).items() == if r {
                    kept(old(self).items().push(q[0]), old(self).bound())
                } else {
                    old(self).items()
                }
                &&& q2 == if r { q.drop_first() } else { q }
            }),
    ;

    /// Expands the buffer up to `n` times, stopping at the first expansion that fails. Returns
    /// whether at least one item was added.
    fn expand_n(&mut self, n: usize) -> (r: bool)
        requires
            old(self).inv(),
        ensures
            final(self).inv(),
            final(self).bound() == old(self).bound(),
            lawful(final(self).source()) == lawful(old(self).source()),
            lawful(old(self).source()) ==> ({
                let q = queued(old(self).lookahead(), IteratorSpec::remaining(&old(self).source()));
                let q2 = queued(final(self).lookahead(), IteratorSpec::remaining(&final(self).source()));
                let k = if n < q.len() { n as int } else { q.len() as int };
                &&& r == (k > 0)
                &&& final(self).items() == kept(old(self).items() + q.take(k), old(self).bound())
                &&& q2 == q.skip(k)
            }),
    {
        let ghost start = *self;
        proof {
            self.lemma_within_bound();
            assert(start.items() + Seq::<T>::empty() =~= start.items());
            if lawful(start.source()) {
                let q = queued(start.lookahead(), IteratorSpec::remaining(&start.source()));
                assert(q.take(0) =~= Seq::<T>::empty());
                assert(q.skip(0) =~= q);
            }
        }
        let mut grown = false;
        let mut i: usize = 0;
        while i < n
            invariant
                self.inv(),
                i <= n,
                self.bound() == start.bound(),
                lawful(self.source()) == lawful(start.source()),
                lawful(start.source()) ==> ({
                    let q = queued(start.lookahead(), IteratorSpec::remaining(&start.source()));
                    let q2 = queued(self.lookahead(), IteratorSpec::remaining(&self.source()));
                    &&& i <= q.len()
                    &&& grown == (i > 0)
                    &&& self.items() == kept(start.items() + q.take(i as int), start.bound())
                    &&& q2 == q.skip(i as int)
                }),
            ensures
                lawful(start.source()) ==> i == n || queued(
                    self.lookahead(),
                    IteratorSpec::remaining(&self.source()),
                ).len() == 0,
            decreases n - i,
        {
            let ghost before = *self;
            if !self.expand() {
                break;
            }
            proof {
                if lawful(start.source()) {
                    let q = queued(start.lookahead(), IteratorSpec::remaining(&start.source()));
                    lemma_kept_push(start.items() + q.take(i as int), start.bound(), q[i as int]);
                    assert((start.items() + q.take(i as int)).push(q[i as int])
                        =~= start.items() + q.take(i + 1));
                    assert(q.skip(i as int).drop_first() =~= q.skip(i + 1));
                }
            }
            grown = true;
            i = i + 1;
        }
        grown
    }

    /// Expands the buffer while the next item of the source meets `f`, looking at that item
    /// before drawing it; the first item that fails `f` stays next in line. Returns whether at
    /// least one item was added.
    ///
    /// The source must be `lawful` and carry a termination measure (`IteratorSpec::decrease`),
    /// which bounds the number of rounds.
    fn expand_while<F>(&mut self, f: F) -> (r: bool)
        where
            F: Fn(&T) -> bool,
        requires
            old(self).inv(),
            lawful(old(self).source()),
            IteratorSpec::decrease(&old(self).source()) is Some,
            forall|x: &T| #[trigger] f.requires((x,)),
        ensures
            final(self).inv(),
            final(self).bound() == old(self).bound(),
            lawful(final(self).source()),
            ({
                let q = queued(old(self).lookahead(), IteratorSpec::remaining(&old(self).source()));
                let q2 = queued(final(self).lookahead(), IteratorSpec::remaining(&final(self).source()));
                exists|k: int| {
                    &&& 0 <= k <= q.len()
                    &&& forall|j: int| 0 <= j < k ==> #[trigger] f.ensures((&q[j],), true)
                    &&& k < q.len() ==> f.ensures((&q[k],), false)
                    &&& r == (k > 0)
                    &&& final(self).items() == kept(old(self).items() + q.take(k), old(self).bound())
                    &&& q2 == q.skip(k)
                }
            }),
    ;

    /// Removes the front (oldest) item and returns it; `None` on an empty buffer.
    fn pop_front(&mut self) -> (r: Option<T>)
        requires
            old(self).inv(),
        ensures
            final(self).inv(),
            final(self).bound() == old(self).bound(),
            final(self).source() == old(self).source(),
            final(self).lookahead() == old(self).lookahead(),
            r == front_of(old(self).items()),
            final(self).items() == if old(self).items().len() > 0 {
                old(self).items().drop_first()
            } else {
                old(self).items()
            },
    ;

    /// Removes the back (newest) item and returns it; `None` on an empty buffer.
    fn pop_back(&mut self) -> (r: Option<T>)
        requires
            old(self).inv(),
        ensures
            final(self).inv(),
            final(self).bound() == old(self).bound(),
            final(self).source() == old(self).source(),
            final(self).lookahead() == old(self).lookahead(),
            r == back_of(old(self).items()),
            final(self).items() == if old(self).items().len() > 0 {
                old(self).items().drop_last()
            } else {
                old(self).items()
            },
    ;

    /// The item at position `index` from the front (0 is the oldest); `None` where `index` is
    /// not below the number of held items.
    fn peek_at(&self, index: usize) -> (r: Option<&T>)
        requires
            self.inv(),
        ensures
            copied(r) == at_of(self.items(), index as int),
    ;

    /// A mutable reference to the item at position `index` from the front; `None` where `index`
    /// is not below the number of held items. What is written through it replaces that item.
    fn peek_at_mut(&mut self, index: usize) -> (r: Option<&mut T>)
        requires
            old(self).inv(),
        ensures
            final(self).inv(),
            final(self).bound() == old(self).bound(),
            final(self).source() == old(self).source(),
            final(self).lookahead() == old(self).lookahead(),
            index < old(self).items().len() ==> {
                &&& r is Some
                &&& *r->0 == old(self).items()[index as int]
                &&& final(self).items() == old(self).items().update(index as int, *final(r->0))
            },
            index >= old(self).items().len() ==> r is None && final(self).items() == old(self).items(),
    ;

    /// The number of held items.
    fn len(&self) -> (r: usize)
        requires
            self.inv(),
        ensures
            r == self.items().len(),
    ;

    /// Whether no item is held.
    fn is_empty(&self) -> (r: bool)
        requires
            self.inv(),
        ensures
            r == (self.items().len() == 0),
    {
        self.len() == 0
    }

    /// The front (oldest) item; `None` on an empty buffer.
    fn peek_front(&self) -> (r: Option<&T>)
        requires
            self.inv(),
        ensures
            copied(r) == front_of(self.items()),
    {
        self.peek_at(0)
    }

    /// The back (newest) item; `None` on an empty buffer.
    fn peek_back(&self) -> (r: Option<&T>)
        requires
            self.inv(),
        ensures
            copied(r) == back_of(self.items()),
    {
        let n = self.len();
        if n == 0 {
            None
        } else {
            self.peek_at(n - 1)
        }
    }

    /// A mutable reference to the front item; `None` on an empty buffer.
    fn peek_front_mut(&mut self) -> (r: Option<&mut T>)
        requires
            old(self).inv(),
        ensures
            final(self).inv(),
            final(self).bound() == old(self).bound(),
            final(self).source() == old(self).source(),
            final(self).lookahead() == old(self).lookahead(),
            old(self).items().len() > 0 ==> {
                &&& r is Some
                &&& *r->0 == old(self).items()[0]
                &&& final(self).items() == old(self).items().update(0, *final(r->0))
            },
            old(self).items().len() == 0 ==> r is None && final(self).items() == old(self).items(),
    {
        self.peek_at_mut(0)
    }

    /// A mutable reference to the back item; `None` on an empty buffer.
    fn peek_back_mut(&mut self) -> (r: Option<&mut T>)
        requires
            old(self).inv(),
        ensures
            final(self).inv(),
            final(self).bound() == old(self).bound(),
            final(self).source() == old(self).source(),
            final(self).lookahead() == old(self).lookahead(),
            old(self).items().len() > 0 ==> {
                let last = old(self).items().len() - 1;
                &&& r is Some
                &&& *r->0 == old(self).items()[last]
                &&& final(self).items() == old(self).items().update(last, *final(r->0))
            },
            old(self).items().len() == 0 ==> r is None && final(self).items() == old(self).items(),
    {
        let n = self.len();
        if n == 0 {
            None
        } else {
            self.peek_at_mut(n - 1)
        }
    }
}

/// The item a shared reference points to, if any.
pub open spec fn copied<T>(r: Option<&T>) -> Option<T> {
    match r {
        Some(x) => Some(*x),
        None => None,
    }
}

/// The front item of `s`, if any.
pub open spec fn front_of<T>(s: Seq<T>) -> Option<T> {
    if s.len() > 0 { Some(s[0]) } else { None }
}

/// The back item of `s`, if any.
pub open spec fn back_of<T>(s: Seq<T>) -> Option<T> {
    if s.len() > 0 { Some(s.last()) } else { None }
}

/// The item of `s` at `i`, if `i` is a position of `s`.
pub open spec fn at_of<T>(s: Seq<T>, i: int) -> Option<T> {
    if 0 <= i < s.len() { Some(s[i]) } else { None }
}

/// Keeping the last items after each push is the same as keeping them once at the end.
pub proof fn lemma_kept_push<T>(s: Seq<T>, bound: Option<nat>, x: T)
    ensures
        kept(kept(s, bound).push(x), bound) == kept(s.push(x), bound),
{
    if let Some(n) = bound {
        if s.len() > n {
            assert(kept(kept(s, bound).push(x), bound) =~= kept(s.push(x), bound));
        }
    }
}

/// Growing a buffer that holds as many items as its bound drops exactly the oldest item: what
/// stays is every other held item, in order, followed by the new one.
pub proof fn lemma_full_evicts_oldest<T>(items: Seq<T>, n: nat, x: T)
    requires
        n >= 1,
        items.len() == n,
    ensures
        kept(items.push(x), Some(n)) == items.drop_first().push(x),
        kept(items.push(x), Some(n)) == appended(items, true, x),
{
    assert(kept(items.push(x), Some(n)) =~= items.drop_first().push(x));
}

/// Turns an iterator into a [`Band`] or a [`Tape`] over it.
pub trait Enroll: Sized {
    /// An empty [`Band`] of capacity `N` over this iterator.
    fn band<const N: usize>(self) -> (b: Band<N, Self>)
        where
            Self: Iterator,
        requires
            N >= 1,
        ensures
            b.inv(),
            b.items() == Seq::<Self::Item>::empty(),
            b.source() == self,
            b.lookahead() is None,
    ;

    /// An empty [`Tape`] over this iterator.
    fn tape(self) -> (t: Tape<Self>)
        where
            Self: Iterator,
        ensures
            t.inv(),
            t.items() == Seq::<Self::Item>::empty(),
            t.source() == self,
            t.lookahead() is None,
    ;
}

impl<I: Iterator> Enroll for I {
    fn band<const N: usize>(self) -> (b: Band<N, Self>) {
        Band::new(self)
    }

    fn tape(self) -> (t: Tape<Self>) {
        Tape::new(self)
    }
}

} // verus!
