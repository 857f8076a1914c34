//! Producers and consumers that live in memory.

use crate::stream::{Consumer, Producer, ReadOutcome};
use vstd::prelude::*;

verus! {

/// A byte slice is read from its front; what has been read is dropped from it.
impl<'a> Producer for &'a [u8] {
    open spec fn content(&self) -> Seq<u8> {
        (*self)@
    }

    open spec fn fails(&self) -> bool {
        false
    }

    open spec fn stalls(&self) -> nat {
        0
    }

    fn read(&mut self, buf: &mut [u8]) -> (r: ReadOutcome)
        ensures
            old(self)@.len() == 0 ==> r is Eof,
            old(self)@.len() > 0 ==> r == ReadOutcome::Got(
                if old(self)@.len() < old(buf)@.len() {
                    old(self)@.len() as usize
                } else {
                    old(buf)@.len() as usize
                },
            ),
    {
        let n: usize = if self.len() < buf.len() { self.len() } else { buf.len() };
        if n == 0 {
            return ReadOutcome::Eof;
        }
        let (head, tail) = self.split_at(n);
        let mut i: usize = 0;
        while i < n
            invariant
                i <= n,
                n == head@.len(),
                n <= buf@.len(),
                buf@.len() == old(buf)@.len(),
                forall|j: int| 0 <= j < i ==> buf@[j] == head@[j],
            decreases n - i,
        {
            buf[i] = head[i];
            i += 1;
        }
        *self = tail;
        assert(buf@.take(n as int) =~= old(self).content().take(n as int));
        assert(self.content() =~= old(self).content().skip(n as int));
        ReadOutcome::Got(n)
    }
}

/// A vector takes in bytes at its end, and never refuses them.
impl Consumer for Vec<u8> {
    open spec fn written(&self) -> Seq<u8> {
        self@
    }

    open spec fn reliable(&self) -> bool {
        true
    }

    fn write_all(&mut self, bytes: &[u8]) -> (r: Result<(), std::io::Error>) {
        self.extend_from_slice(bytes);
        assert(self@ =~= old(self)@ + bytes@);
        Ok(())
    }
}

} // verus!
