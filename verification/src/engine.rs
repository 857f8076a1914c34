//! The copying loops of the splicer.

use crate::bounded::Bounded;
use crate::stream::{extends_within, Consumer, Producer, ReadOutcome};
use vstd::math::min;
use vstd::prelude::*;
use vstd::slice::slice_subrange;

verus! {

/// A write that stopped within the bytes `all[done..done + n]` stopped within `all`.
proof fn lemma_stopped_within(before: Seq<u8>, was: Seq<u8>, now: Seq<u8>, all: Seq<u8>, done: int, n: int)
    requires
        0 <= done,
        0 <= n,
        done + n <= all.len(),
        was == before + all.take(done),
        extends_within(was, now, all.subrange(done, done + n)),
    ensures
        extends_within(before, now, all.take(done + n)),
        extends_within(before, now, all),
{
    let k = now.len() - was.len();
    assert(all.take(done) + all.subrange(done, done + n).take(k) =~= all.take(done + k));
    assert(all.take(done + n).take(done + k) =~= all.take(done + k));
    assert(now == before + all.take(done + k)) by {
        assert(before + all.take(done) + all.subrange(done, done + n).take(k) =~= before + all.take(
            done + k,
        ));
    }
}

/// Copies to `target` everything that `source` still has to deliver.
///
/// On success the target has taken in the whole content of the source, whose
/// stream ended cleanly. On failure it has taken in some front part of it.
/// With a target that can be relied on the call fails exactly when the
/// stream of the source ends in a failure, and the target has then still
/// taken in the whole content.
pub fn pump<P: Producer + ?Sized, W: Consumer>(source: &mut P, target: &mut W, buf: &mut [u8]) -> (r:
    Result<(), std::io::Error>)
    requires
        old(buf)@.len() > 0,
    ensures
        final(buf)@.len() == old(buf)@.len(),
        r is Ok ==> !old(source).fails() && final(target).written() == old(target).written()
            + old(source).content(),
        r is Err ==> extends_within(
            old(target).written(),
            final(target).written(),
            old(source).content(),
        ),
        old(target).reliable() ==> {
            &&& final(target).reliable()
            &&& final(target).written() == old(target).written() + old(source).content()
            &&& r is Ok <==> !old(source).fails()
        },
{
    let ghost all = source.content();
    let ghost before = target.written();
    let ghost mut done: int = 0;
    assert(all.take(0) =~= Seq::<u8>::empty());
    assert(before + Seq::<u8>::empty() =~= before);
    assert(all.skip(0) =~= all);
    loop
        invariant
            buf@.len() == old(buf)@.len(),
            buf@.len() > 0,
            all == old(source).content(),
            before == old(target).written(),
            0 <= done <= all.len(),
            source.content() == all.skip(done),
            source.fails() == old(source).fails(),
            target.written() == before + all.take(done),
            old(target).reliable() ==> target.reliable(),
        decreases source.content().len() + source.stalls(),
    {
        match source.read(buf) {
            ReadOutcome::Eof => {
                assert(all.take(done) =~= all);
                return Ok(());
            },
            ReadOutcome::Got(n) => {
                let chunk = slice_subrange(buf, 0, n);
                let ghost was = target.written();
                assert(chunk@ =~= all.subrange(done, done + n));
                match target.write_all(chunk) {
                    Ok(()) => {
                        proof {
                            assert(all.take(done) + all.subrange(done, done + n) =~= all.take(
                                done + n,
                            ));
                            assert(all.skip(done).skip(n as int) =~= all.skip(done + n));
                            assert(before + all.take(done) + all.subrange(done, done + n)
                                =~= before + all.take(done + n));
                            done = done + n;
                        }
                    },
                    Err(e) => {
                        proof {
                            lemma_stopped_within(before, was, target.written(), all, done, n as int);
                        }
                        return Err(e);
                    },
                }
            },
            ReadOutcome::Interrupted => {},
            ReadOutcome::Failed(e) => {
                assert(all.take(done) =~= all);
                assert(all.take(all.len() as int) =~= all);
                return Err(e);
            },
        }
    }
}

/// Copies the next `count` bytes of `origin` to `target`, or as many as the
/// origin still has if those are fewer, and says how many it copied.
///
/// The origin is read through a view bounded by what is still to copy, so
/// that it is never read beyond the `count` bytes. A result below `count`
/// means that the origin has ended cleanly. On failure the target has taken
/// in some front part of the bytes that were to be copied. With a target that
/// can be relied on the call fails exactly when the origin ends in a failure
/// before `count` bytes, and the target has then taken in all the origin had.
pub fn fill_gap<R: Producer, W: Consumer>(
    origin: &mut R,
    target: &mut W,
    buf: &mut [u8],
    count: usize,
) -> (r: Result<usize, std::io::Error>)
    requires
        old(buf)@.len() > 0,
    ensures
        final(buf)@.len() == old(buf)@.len(),
        r matches Ok(n) ==> {
            &&& n == min(count as int, old(origin).content().len() as int)
            &&& final(target).written() == old(target).written() + old(origin).content().take(
                n as int,
            )
            &&& n == count ==> final(origin).content() == old(origin).content().skip(n as int)
                && final(origin).fails() == old(origin).fails()
            &&& n < count ==> !old(origin).fails()
        },
        r is Err ==> extends_within(
            old(target).written(),
            final(target).written(),
            old(origin).content().take(min(count as int, old(origin).content().len() as int)),
        ),
        old(target).reliable() ==> {
            &&& final(target).reliable()
            &&& r is Err <==> old(origin).fails() && old(origin).content().len() < count
            &&& r is Err ==> final(target).written() == old(target).written() + old(
                origin,
            ).content()
        },
{
    let ghost all = origin.content();
    let ghost before = target.written();
    let ghost most = min(count as int, all.len() as int);
    let mut sent: usize = 0;
    assert(all.take(0) =~= Seq::<u8>::empty());
    assert(before + Seq::<u8>::empty() =~= before);
    assert(all.skip(0) =~= all);
    while sent < count
        invariant
            buf@.len() == old(buf)@.len(),
            buf@.len() > 0,
            all == old(origin).content(),
            before == old(target).written(),
            most == min(count as int, all.len() as int),
            sent <= most,
            origin.content() == all.skip(sent as int),
            origin.fails() == old(origin).fails(),
            target.written() == before + all.take(sent as int),
            old(target).reliable() ==> target.reliable(),
        decreases origin.content().len() + origin.stalls(),
    {
        let mut view = Bounded::new(origin, count - sent);
        match view.read(buf) {
            ReadOutcome::Eof => {
                return Ok(sent);
            },
            ReadOutcome::Got(n) => {
                let chunk = slice_subrange(buf, 0, n);
                let ghost was = target.written();
                assert(chunk@ =~= all.subrange(sent as int, sent + n)) by {
                    assert(all.skip(sent as int).take(n as int) =~= all.subrange(
                        sent as int,
                        sent + n,
                    ));
                }
                match target.write_all(chunk) {
                    Ok(()) => {
                        proof {
                            assert(before + all.take(sent as int) + all.subrange(
                                sent as int,
                                sent + n,
                            ) =~= before + all.take(sent + n));
                            assert(all.skip(sent as int).skip(n as int) =~= all.skip(sent + n));
                        }
                        sent = sent + n;
                    },
                    Err(e) => {
                        proof {
                            assert(all.take(most).take(sent as int) =~= all.take(sent as int));
                            assert(all.take(most).subrange(sent as int, sent + n)
                                =~= all.subrange(sent as int, sent + n));
                            lemma_stopped_within(
                                before,
                                was,
                                target.written(),
                                all.take(most),
                                sent as int,
                                n as int,
                            );
                        }
                        return Err(e);
                    },
                }
            },
            ReadOutcome::Interrupted => {},
            ReadOutcome::Failed(e) => {
                assert(all.take(sent as int) =~= all);
                assert(all.take(most).take(most) =~= all);
                return Err(e);
            },
        }
    }
    Ok(sent)
}

} // verus!
