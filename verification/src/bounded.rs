//! A view of a producer that hands out no more than a set number of bytes.

use crate::stream::{Producer, ReadOutcome};
use vstd::prelude::*;

verus! {

/// A producer that reads from another one, and ends when it has delivered a
/// set number of bytes or when the other one ends, whichever comes first.
///
/// The view never asks the producer below for more than it may still
/// deliver itself, so that producer is not read beyond the limit.
pub struct Bounded<'a, P: Producer> {
    /// The producer that is read from.
    pub inner: &'a mut P,
    /// The number of bytes that this view may still deliver.
    pub limit: usize,
}

impl<'a, P: Producer> Bounded<'a, P> {
    /// A view of `inner` that delivers at most `limit` of its bytes.
    pub fn new(inner: &'a mut P, limit: usize) -> (view: Self)
        ensures
            view.limit == limit,
            *view.inner == *old(inner),
            *final(view.inner) == *final(inner),
    {
        Bounded { inner, limit }
    }
}

impl<'a, P: Producer> Producer for Bounded<'a, P> {
    open spec fn content(&self) -> Seq<u8> {
        if self.limit <= self.inner.content().len() {
            self.inner.content().take(self.limit as int)
        } else {
            self.inner.content()
        }
    }

    open spec fn fails(&self) -> bool {
        self.inner.fails() && self.inner.content().len() < self.limit
    }

    open spec fn stalls(&self) -> nat {
        self.inner.stalls()
    }

    fn read(&mut self, buf: &mut [u8]) -> (r: ReadOutcome)
        ensures
            *final(final(self).inner) == *final(old(self).inner),
            old(self).limit == 0 ==> r is Eof && *final(self).inner == *old(self).inner,
            !(r is Got) ==> final(self).limit == old(self).limit,
            r matches ReadOutcome::Got(n) ==> {
                &&& final(self).limit == old(self).limit - n
                &&& final(self).inner.content() == old(self).inner.content().skip(n as int)
                &&& final(self).inner.fails() == old(self).inner.fails()
                &&& final(self).inner.stalls() <= old(self).inner.stalls()
            },
            r is Interrupted ==> {
                &&& final(self).inner.content() == old(self).inner.content()
                &&& final(self).inner.fails() == old(self).inner.fails()
                &&& final(self).inner.stalls() < old(self).inner.stalls()
            },
    {
        if self.limit == 0 {
            return ReadOutcome::Eof;
        }
        let room: usize = if self.limit < buf.len() { self.limit } else { buf.len() };
        let (head, _tail) = buf.split_at_mut(room);
        let r = self.inner.read(head);
        match r {
            ReadOutcome::Got(n) => {
                self.limit = self.limit - n;
            },
            _ => {},
        }
        r
    }
}

} // verus!
