//! Splices byte streams into an origin stream at given byte offsets.
//!
//! An [`Inserter`] is made around an origin to read from and a target to
//! write to. Producers are registered with it, each for a byte offset into
//! the origin, in any order. Running it copies the origin to the target and
//! puts every registered producer's bytes in at its offset: in ascending
//! order of offset, and those registered for one offset in the order of
//! their registration. An offset beyond the origin's end stands for its end.
//! Everything passes through one buffer of [`BUFFER_SIZE`] bytes.
//!
//! What a splice comes to is stated in [`splice`] over plain sequences of
//! bytes; [`layout`] and [`order`] prove where the bytes of the origin and of
//! the insertions stand in it. [`string_inserter`] splices text.

pub mod bounded;
pub mod engine;
pub mod layout;
pub mod memory;
pub mod order;
pub mod splice;
pub mod stream;
pub mod string_inserter;

use crate::engine::{fill_gap, pump};
use crate::splice::{
    all_clean, ascending, landing, lemma_clean_run, lemma_placed, lemma_run_end, lemma_run_step,
    lemma_run_within_splice, placed, run, run_from, slot, spliced, Insertion, Outcome,
};
use crate::stream::{extends_within, Consumer, Producer};
use vstd::math::min;
use vstd::prelude::*;

verus! {

/// Size of the buffer through which bytes are copied from readers to the writer.
pub const BUFFER_SIZE: usize = 1024;

/// The insertion that a producer registered at an offset stands for.
pub open spec fn insertion_of<I: Producer>(offset: usize, source: I) -> Insertion {
    Insertion { offset: offset as nat, content: source.content(), fails: source.fails() }
}

/// The plan that a list of registered producers stands for.
pub open spec fn plan_of<I: Producer>(entries: Seq<(usize, I)>) -> Seq<Insertion> {
    entries.map_values(|e: (usize, I)| insertion_of(e.0, e.1))
}

/// Keeps track of the origin reader, the target writer, and all points of
/// insertion.
pub struct Inserter<'t, R: Producer, I: Producer, W: Consumer> {
    origin: R,
    insertions: Vec<(usize, I)>,
    target: &'t mut W,
}

impl<'t, R: Producer, I: Producer, W: Consumer> Inserter<'t, R, I, W> {
    /// The origin, as it was handed over.
    pub closed spec fn origin(&self) -> R {
        self.origin
    }

    /// The insertions registered so far, in the order in which they will be
    /// emitted.
    pub closed spec fn plan(&self) -> Seq<Insertion> {
        plan_of(self.insertions@)
    }

    /// The schedule is kept in ascending order of offset.
    #[verifier::type_invariant]
    spec fn ordered(self) -> bool {
        ascending(plan_of(self.insertions@))
    }

    /// The target that the splice will be written to: `*s.target()` is the
    /// target as it is now, `*final(s.target())` the target as the splicer
    /// will leave it.
    pub closed spec fn target(&self) -> &'t mut W {
        self.target
    }

    /// What a run of this splicer is to emit, and whether it is to end
    /// cleanly.
    pub open spec fn outcome(&self) -> Outcome {
        run(self.origin().content(), self.origin().fails(), self.plan())
    }

    /// A splicer of `origin` into `target`, with nothing to insert yet.
    pub fn new(origin: R, target: &'t mut W) -> (s: Self)
        ensures
            s.origin() == origin,
            s.plan() == Seq::<Insertion>::empty(),
            ascending(s.plan()),
            *s.target() == *old(target),
            *final(s.target()) == *final(target),
    {
        let s = Inserter { origin, insertions: Vec::new(), target };
        assert(s.plan() =~= Seq::<Insertion>::empty());
        s
    }

    /// Registers `source` for insertion at byte `position` of the origin,
    /// behind everything already registered at that position or before it.
    pub fn insert(self, position: usize, source: I) -> (s: Self)
        ensures
            s.origin() == self.origin(),
            s.plan() == placed(self.plan(), insertion_of(position, source)),
            ascending(s.plan()),
            *s.target() == *self.target(),
            *final(s.target()) == *final(self.target()),
    {
        proof {
            use_type_invariant(&self);
            lemma_placed(self.plan(), insertion_of(position, source));
        }
        let Inserter { origin, mut insertions, target } = self;
        let ghost entries = insertions@;
        let ghost plan = plan_of(entries);
        let ghost item = insertion_of(position, source);
        // find the place from the back: in the usual case of ascending
        // registration it is the end
        let mut at: usize = insertions.len();
        assert(plan.take(at as int) =~= plan);
        while at > 0 && insertions[at - 1].0 > position
            invariant
                at <= insertions.len(),
                insertions@ == entries,
                plan == plan_of(entries),
                slot(plan, position as nat) == slot(plan.take(at as int), position as nat),
            decreases at,
        {
            assert(plan.take(at as int).drop_last() =~= plan.take(at - 1));
            at -= 1;
        }
        insertions.insert(at, (position, source));
        assert(plan_of(insertions@) =~= plan.insert(at as int, item));
        Inserter { origin, insertions, target }
    }

    /// Runs the splice: writes to the target the origin with every registered
    /// insertion put in at its position.
    ///
    /// On success every stream has ended cleanly and the target has taken in
    /// the whole splice. On failure it has taken in some front part of what
    /// the run had to emit. With a target that can be relied on, the call
    /// fails exactly when the run meets a stream that ends in a failure, and
    /// the target has then taken in all that came before the failure; so
    /// with such a target and streams that all end cleanly it succeeds.
    pub fn execute(self) -> (r: Result<(), std::io::Error>)
        ensures
            r is Ok ==> {
                &&& !self.origin().fails()
                &&& all_clean(self.plan())
                &&& final(self.target()).written() == self.target().written() + spliced(
                    self.origin().content(),
                    self.plan(),
                )
            },
            self.target().reliable() && !self.origin().fails() && all_clean(self.plan()) ==> r is Ok,
            r is Err ==> extends_within(
                self.target().written(),
                final(self.target()).written(),
                self.outcome().bytes,
            ),
            self.target().reliable() ==> {
                &&& final(self.target()).reliable()
                &&& final(self.target()).written() == self.target().written()
                    + self.outcome().bytes
                &&& r is Ok <==> self.outcome().clean
            },
    {
        let Inserter { mut origin, insertions, target } = self;
        let ghost all = origin.content();
        let ghost flawed = origin.fails();
        let ghost entries = insertions@;
        let ghost plan = plan_of(entries);
        let ghost before = target.written();
        let ghost trusty = target.reliable();
        let ghost total = run(all, flawed, plan);
        let ghost mut emitted: Seq<u8> = Seq::empty();
        let mut buffer: Vec<u8> = vec![0u8; BUFFER_SIZE];
        let buf = buffer.as_mut_slice();
        let mut input_index: usize = 0;
        let mut drained = false;
        proof {
            lemma_run_within_splice(all, flawed, 0, plan);
            if !flawed && all_clean(plan) {
                lemma_clean_run(all, 0, plan);
            }
            assert(plan.skip(0) =~= plan);
            assert(before + emitted =~= before);
            assert(emitted + total.bytes =~= total.bytes);
            assert(all.skip(0) =~= all);
        }
        for entry in it: insertions
            invariant
                buf@.len() == BUFFER_SIZE,
                it.seq() == entries,
                plan == plan_of(entries),
                input_index <= all.len(),
                !drained ==> origin.content() == all.skip(input_index as int) && origin.fails()
                    == flawed,
                drained ==> input_index == all.len() && !flawed,
                target.written() == before + emitted,
                trusty ==> target.reliable(),
                total.bytes == emitted + run_from(
                    all,
                    flawed,
                    input_index as int,
                    plan.skip(it.index()),
                ).bytes,
                total.clean == run_from(
                    all,
                    flawed,
                    input_index as int,
                    plan.skip(it.index()),
                ).clean,
                before == self.target().written(),
                trusty == self.target().reliable(),
                total == self.outcome(),
                total.clean ==> !flawed && all_clean(plan) && total.bytes == spliced(all, plan),
                !flawed && all_clean(plan) ==> total.clean,
                all == self.origin().content(),
                flawed == self.origin().fails(),
                plan == self.plan(),
                *final(target) == *final(self.target()),
        {
            let ghost from = input_index as int;
            let ghost item = plan[it.index()];
            let ghost at = landing(all.len(), from, item.offset);
            let ghost gap = all.subrange(from, at);
            let ghost later = run_from(all, flawed, at, plan.skip(it.index() + 1));
            proof {
                assert(insertion_of(entry.0, entry.1) == item);
                lemma_run_step(all, flawed, from, plan, it.index());
            }
            let (insert_idx, mut to_insert) = entry;
            // copy the origin up to where this insertion is due, unless it is
            // there already or has run out of bytes
            if !drained && input_index < insert_idx {
                let count = insert_idx - input_index;
                proof {
                    lemma_gap(all, from, count as int, at);
                }
                match fill_gap(&mut origin, target, buf, count) {
                    Ok(sent) => {
                        if sent < count {
                            drained = true;
                        }
                        input_index = input_index + sent;
                    },
                    Err(e) => {
                        proof {
                            lemma_stopped_early(before, emitted, target.written(), gap, total.bytes);
                            lemma_joined(before, emitted, gap);
                        }
                        return Err(e);
                    },
                }
            } else {
                proof {
                    lemma_no_gap(target.written(), all, from);
                }
            }
            assert(input_index == at);
            assert(target.written() == before + emitted + gap);
            assert(!(flawed && item.offset > all.len()));
            proof {
                lemma_joined(before, emitted, gap);
            }
            // copy over the insertion; this does not move the input index
            match pump(&mut to_insert, target, buf) {
                Ok(()) => {
                    proof {
                        lemma_joined(before, emitted + gap, item.content);
                        lemma_regrouped(emitted, gap, item.content, later.bytes);
                        emitted = emitted + gap + item.content;
                    }
                },
                Err(e) => {
                    proof {
                        lemma_stopped_early(
                            before,
                            emitted + gap,
                            target.written(),
                            item.content,
                            total.bytes,
                        );
                        lemma_joined(before, emitted + gap, item.content);
                        lemma_regrouped(emitted, gap, item.content, Seq::empty());
                    }
                    return Err(e);
                },
            }
        }
        let ghost tail = all.subrange(input_index as int, all.len() as int);
        proof {
            lemma_run_end(all, flawed, input_index as int, plan);
        }
        // all insertions are out: copy over what is left of the origin
        if !drained {
            assert(all.skip(input_index as int) =~= tail);
            match pump(&mut origin, target, buf) {
                Ok(()) => {
                    proof {
                        lemma_joined(before, emitted, tail);
                    }
                },
                Err(e) => {
                    proof {
                        lemma_stopped_early(before, emitted, target.written(), tail, total.bytes);
                        lemma_joined(before, emitted, tail);
                    }
                    return Err(e);
                },
            }
        } else {
            assert(tail =~= Seq::<u8>::empty());
            assert(emitted + tail =~= emitted);
        }
        Ok(())
    }
}

/// The bytes that `fill_gap` is asked to copy are the gap up to the landing.
proof fn lemma_gap(all: Seq<u8>, from: int, count: int, at: int)
    requires
        0 <= from <= all.len(),
        0 < count,
        at == landing(all.len(), from, (from + count) as nat),
    ensures
        all.skip(from).take(min(count, all.len() - from)) == all.subrange(from, at),
        at == from + min(count, all.len() - from),
        at == all.len() ==> all.skip(from) == all.subrange(from, at),
{
    assert(all.skip(from).take(min(count, all.len() - from)) =~= all.subrange(from, at));
    if at == all.len() {
        assert(all.skip(from) =~= all.subrange(from, at));
    }
}

/// Where nothing is to be copied, nothing is added.
proof fn lemma_no_gap(written: Seq<u8>, all: Seq<u8>, from: int)
    requires
        0 <= from <= all.len(),
    ensures
        written + all.subrange(from, from) == written,
        all.subrange(from, from) == Seq::<u8>::empty(),
{
    assert(all.subrange(from, from) =~= Seq::<u8>::empty());
    assert(written + all.subrange(from, from) =~= written);
}

/// Joining is associative.
proof fn lemma_joined(a: Seq<u8>, b: Seq<u8>, c: Seq<u8>)
    ensures
        a + b + c == a + (b + c),
{
    assert(a + b + c =~= a + (b + c));
}

/// Joining four parts is associative.
proof fn lemma_regrouped(a: Seq<u8>, b: Seq<u8>, c: Seq<u8>, d: Seq<u8>)
    ensures
        a + (b + c + d) == a + b + c + d,
        (a + b + c).is_prefix_of(a + (b + c + d)),
        d.len() == 0 ==> a + (b + c) == a + (b + c + d),
{
    assert(a + (b + c + d) =~= a + b + c + d);
    if d.len() == 0 {
        assert(a + (b + c) =~= a + (b + c + d));
    }
}

/// A sink that stopped within `piece`, having taken in `emitted` before, has
/// stopped within any run that starts with `emitted` and `piece`.
proof fn lemma_stopped_early(
    before: Seq<u8>,
    emitted: Seq<u8>,
    now: Seq<u8>,
    piece: Seq<u8>,
    whole: Seq<u8>,
)
    requires
        extends_within(before + emitted, now, piece),
        (emitted + piece).is_prefix_of(whole),
    ensures
        extends_within(before, now, whole),
{
    let k = now.len() - (before + emitted).len();
    assert(whole.take(emitted.len() + k) =~= emitted + piece.take(k));
    assert(before + emitted + piece.take(k) =~= before + (emitted + piece.take(k)));
}

} // verus!
