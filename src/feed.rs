//! A one-item lookahead over an iterator.
use vstd::prelude::*;
use vstd::std_specs::iter::IteratorSpec;

#[allow(unused_imports)]
use crate::ribbon::{copied, lawful, queued};

verus! {

/// An iterator with room for one item that has been drawn from it but not yet handed out.
///
/// The items still to come are the drawn item, if any, followed by what the iterator yields.
#[derive(Debug)]
pub struct Feed<I: Iterator> {
    iter: I,
    ahead: Option<I::Item>,
}

impl<I: Iterator> Feed<I> {
    /// The wrapped iterator.
    pub closed spec fn source(&self) -> I {
        self.iter
    }

    /// The item drawn from the iterator and not yet handed out.
    pub closed spec fn lookahead(&self) -> Option<I::Item> {
        self.ahead
    }

    /// A measure that each pull of a drawn item lowers, for iterators that carry a measure.
    pub closed spec fn measure(&self) -> nat {
        match IteratorSpec::decrease(&self.iter) {
            Some(d) => 2 * d + if self.ahead is Some { 1nat } else { 0nat },
            None => 0,
        }
    }

    /// A `Feed` over `iter` with nothing drawn yet.
    pub fn new(iter: I) -> (f: Self)
        ensures
            f.source() == iter,
            f.lookahead() is None,
    {
        Feed { iter, ahead: None }
    }

    /// Hands out the next item: the drawn one if there is one, else the iterator's next.
    pub fn pull(&mut self) -> (r: Option<I::Item>)
        ensures
            lawful(final(self).source()) == lawful(old(self).source()),
            lawful(old(self).source()) ==> ({
                let q = queued(old(self).lookahead(), IteratorSpec::remaining(&old(self).source()));
                let q2 = queued(final(self).lookahead(), IteratorSpec::remaining(&final(self).source()));
                if q.len() == 0 {
                    r is None && q2 == q
                } else {
                    r == Some(q[0]) && q2 == q.drop_first()
                }
            }),
            old(self).lookahead() is Some ==> final(self).source() == old(self).source()
                && final(self).lookahead() is None
                && r == old(self).lookahead(),
            old(self).lookahead() is Some && IteratorSpec::decrease(&old(self).source()) is Some
                ==> final(self).measure() < old(self).measure(),
    {
        match self.ahead.take() {
            Some(x) => Some(x),
            None => self.iter.next(),
        }
    }

    /// Draws the next item of the iterator into the lookahead, unless one is there already.
    pub fn fill(&mut self)
        ensures
            lawful(final(self).source()) == lawful(old(self).source()),
            lawful(old(self).source()) ==> ({
                let q = queued(old(self).lookahead(), IteratorSpec::remaining(&old(self).source()));
                let q2 = queued(final(self).lookahead(), IteratorSpec::remaining(&final(self).source()));
                &&& q2 == q
                &&& (final(self).lookahead() is Some <==> q.len() > 0)
                &&& (IteratorSpec::decrease(&old(self).source()) is Some ==> {
                    &&& IteratorSpec::decrease(&final(self).source()) is Some
                    &&& (q.len() > 0 ==> final(self).measure() <= old(self).measure())
                })
            }),
    {
        if self.ahead.is_none() {
            self.ahead = self.iter.next();
        }
    }

    /// The item in the lookahead, if any.
    pub fn upcoming(&self) -> (r: Option<&I::Item>)
        ensures
            copied(r) == self.lookahead(),
    {
        self.ahead.as_ref()
    }
}

impl<I: Iterator + Clone> Clone for Feed<I> where I::Item: Clone {
    /// A copy with a clone of the iterator and of the drawn item.
    fn clone(&self) -> (r: Self)
        ensures
            cloned(self.source(), r.source()),
            self.lookahead() is None ==> r.lookahead() is None,
            self.lookahead() matches Some(x) ==> r.lookahead() matches Some(y) && cloned(x, y),
    {
        Feed { iter: self.iter.clone(), ahead: self.ahead.clone() }
    }
}

} // verus!
