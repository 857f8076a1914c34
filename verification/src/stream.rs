//! The two capabilities the splicer works with: something that can be read
//! from, and something that can be written to.

use vstd::prelude::*;

verus! {

/// `std::io::Error`, carried through as the cause of a failed read or write.
#[verifier::external_type_specification]
#[verifier::external_body]
pub struct ExIoError(std::io::Error);

/// What one read from a producer came to.
#[derive(Debug)]
pub enum ReadOutcome {
    /// The stream has ended; nothing was delivered.
    Eof,
    /// This many bytes, at least one, were put at the front of the buffer.
    Got(usize),
    /// Nothing was delivered, and the read should simply be issued again.
    Interrupted,
    /// The stream has broken down for good.
    Failed(std::io::Error),
}

/// Whether `now` is `before` followed by some front part of `more`: what a
/// sink holds when a write of `more` has stopped part of the way.
pub open spec fn extends_within(before: Seq<u8>, now: Seq<u8>, more: Seq<u8>) -> bool {
    &&& before.len() <= now.len() <= before.len() + more.len()
    &&& now == before + more.take(now.len() - before.len())
}

/// A source of bytes that can only be read front to back.
///
/// A producer is modelled by the bytes it has yet to deliver
/// ([`content`](Producer::content)), by whether its stream ends in a failure
/// or in a clean end of stream ([`fails`](Producer::fails)), and by a bound on
/// the interruptions still to come ([`stalls`](Producer::stalls)). What is
/// proved of the splicer is proved of producers that keep to this model.
/// The three have bodies here only so that an implementation that is not
/// verified can leave them out; one that is verified states its own.
pub trait Producer {
    /// The bytes this producer has yet to deliver before its stream ends.
    open spec fn content(&self) -> Seq<u8> {
        arbitrary()
    }

    /// Whether the stream ends in a failure rather than in a clean end.
    open spec fn fails(&self) -> bool {
        arbitrary()
    }

    /// A bound on the number of reads that will still be interrupted. A
    /// producer that may be interrupted without end has no such bound, and
    /// a splice that reads from it may never return.
    open spec fn stalls(&self) -> nat {
        arbitrary()
    }

    /// Reads some bytes into the front of `buf`.
    ///
    /// A read that delivers bytes delivers the next ones of the content, at
    /// least one and no more than fit, and may stop short of filling `buf`.
    /// The stream ends, cleanly or not, exactly when the content is used up.
    fn read(&mut self, buf: &mut [u8]) -> (r: ReadOutcome)
        requires
            old(buf)@.len() > 0,
        ensures
            final(buf)@.len() == old(buf)@.len(),
            match r {
                ReadOutcome::Eof => old(self).content().len() == 0 && !old(self).fails(),
                ReadOutcome::Got(n) => {
                    &&& 1 <= n <= old(buf)@.len()
                    &&& n <= old(self).content().len()
                    &&& final(buf)@.take(n as int) == old(self).content().take(n as int)
                    &&& final(self).content() == old(self).content().skip(n as int)
                    &&& final(self).fails() == old(self).fails()
                    &&& final(self).stalls() <= old(self).stalls()
                },
                ReadOutcome::Interrupted => {
                    &&& final(self).content() == old(self).content()
                    &&& final(self).fails() == old(self).fails()
                    &&& final(self).stalls() < old(self).stalls()
                },
                ReadOutcome::Failed(_) => old(self).content().len() == 0 && old(self).fails(),
            },
    ;
}

/// A boxed producer is the producer in the box. With this a schedule can
/// hold producers of different kinds, as `Box<dyn Producer>`.
impl<P: Producer + ?Sized> Producer for Box<P> {
    open spec fn content(&self) -> Seq<u8> {
        (**self).content()
    }

    open spec fn fails(&self) -> bool {
        (**self).fails()
    }

    open spec fn stalls(&self) -> nat {
        (**self).stalls()
    }

    fn read(&mut self, buf: &mut [u8]) -> (r: ReadOutcome) {
        (**self).read(buf)
    }
}

/// A destination for bytes.
///
/// A consumer is modelled by everything it has taken in so far
/// ([`written`](Consumer::written)) and by whether it can be relied on to
/// take in whatever it is given ([`reliable`](Consumer::reliable)). The two
/// have bodies here only so that an implementation that is not verified can
/// leave them out: it is then not taken to be reliable.
pub trait Consumer {
    /// Every byte this consumer has taken in so far, in order.
    open spec fn written(&self) -> Seq<u8> {
        arbitrary()
    }

    /// Whether every write to this consumer succeeds, now and later.
    open spec fn reliable(&self) -> bool {
        false
    }

    /// Writes all of `bytes`, or fails having written some front part of them.
    fn write_all(&mut self, bytes: &[u8]) -> (r: Result<(), std::io::Error>)
        ensures
            r is Ok ==> final(self).written() == old(self).written() + bytes@,
            r is Err ==> extends_within(old(self).written(), final(self).written(), bytes@),
            old(self).reliable() ==> r is Ok && final(self).reliable(),
    ;
}

} // verus!
