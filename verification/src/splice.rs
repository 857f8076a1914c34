//! What a splice is, stated over plain sequences of bytes.

use vstd::prelude::*;

verus! {

/// One scheduled insertion, as the bytes it stands for.
pub struct Insertion {
    /// The byte offset into the origin at which the insertion is due.
    pub offset: nat,
    /// The bytes to insert.
    pub content: Seq<u8>,
    /// Whether the stream of these bytes ends in a failure.
    pub fails: bool,
}

/// What a run of the splicer puts out.
pub struct Outcome {
    /// The bytes emitted, in order.
    pub bytes: Seq<u8>,
    /// Whether the run got to its end without a failed read.
    pub clean: bool,
}

/// The origin position at which an insertion due at `offset` is emitted, when
/// the origin holds `len` bytes of which the first `from` are already out: the
/// offset itself, held within what is left of the origin.
pub open spec fn landing(len: nat, from: int, offset: nat) -> int {
    if offset <= from {
        from
    } else if offset <= len {
        offset as int
    } else {
        len as int
    }
}

/// The bytes that a splice emits from origin position `from` on: for each
/// insertion of the plan in turn, the origin up to where the insertion lands
/// and then the insertion; after the last one, the rest of the origin.
pub open spec fn spliced_from(origin: Seq<u8>, from: int, plan: Seq<Insertion>) -> Seq<u8>
    decreases plan.len(),
{
    if plan.len() == 0 {
        origin.subrange(from, origin.len() as int)
    } else {
        let at = landing(origin.len(), from, plan[0].offset);
        origin.subrange(from, at) + plan[0].content + spliced_from(origin, at, plan.drop_first())
    }
}

/// The origin with every insertion of the plan put in at its offset.
pub open spec fn spliced(origin: Seq<u8>, plan: Seq<Insertion>) -> Seq<u8> {
    spliced_from(origin, 0, plan)
}

/// What a run emits from origin position `from` on, when streams may fail: the
/// run stops at the first stream that ends in a failure, having emitted all
/// that came before the failure. The origin's end is met while heading for an
/// offset beyond it, and at the very end of the run.
pub open spec fn run_from(origin: Seq<u8>, origin_fails: bool, from: int, plan: Seq<Insertion>) -> Outcome
    decreases plan.len(),
{
    if plan.len() == 0 {
        Outcome { bytes: origin.subrange(from, origin.len() as int), clean: !origin_fails }
    } else {
        let at = landing(origin.len(), from, plan[0].offset);
        let gap = origin.subrange(from, at);
        if origin_fails && plan[0].offset > origin.len() {
            Outcome { bytes: gap, clean: false }
        } else if plan[0].fails {
            Outcome { bytes: gap + plan[0].content, clean: false }
        } else {
            let rest = run_from(origin, origin_fails, at, plan.drop_first());
            Outcome { bytes: gap + plan[0].content + rest.bytes, clean: rest.clean }
        }
    }
}

/// What a whole run emits, and whether it ends cleanly.
pub open spec fn run(origin: Seq<u8>, origin_fails: bool, plan: Seq<Insertion>) -> Outcome {
    run_from(origin, origin_fails, 0, plan)
}

/// Whether the plan is in ascending order of offset.
pub open spec fn ascending(plan: Seq<Insertion>) -> bool {
    forall|i: int, j: int| 0 <= i < j < plan.len() ==> plan[i].offset <= plan[j].offset
}

/// The place in an ascending plan at which a new insertion due at `offset`
/// goes: behind every insertion due at that offset or before it.
pub open spec fn slot(plan: Seq<Insertion>, offset: nat) -> int
    decreases plan.len(),
{
    if plan.len() == 0 {
        0
    } else if plan.last().offset <= offset {
        plan.len() as int
    } else {
        slot(plan.drop_last(), offset)
    }
}

/// The plan with one more insertion registered.
pub open spec fn placed(plan: Seq<Insertion>, item: Insertion) -> Seq<Insertion> {
    plan.insert(slot(plan, item.offset), item)
}

/// The plan that insertions make when they are registered one after the
/// other: they stand in ascending order of offset, and those due at one
/// offset in the order of their registration.
pub open spec fn arranged(registered: Seq<Insertion>) -> Seq<Insertion>
    decreases registered.len(),
{
    if registered.len() == 0 {
        Seq::empty()
    } else {
        placed(arranged(registered.drop_last()), registered.last())
    }
}

/// Whether no stream of the plan ends in a failure.
pub open spec fn all_clean(plan: Seq<Insertion>) -> bool {
    forall|i: int| 0 <= i < plan.len() ==> !(#[trigger] plan[i]).fails
}

/// The contents of the plan's insertions, one after the other.
pub open spec fn joined(plan: Seq<Insertion>) -> Seq<u8>
    decreases plan.len(),
{
    if plan.len() == 0 {
        Seq::empty()
    } else {
        plan[0].content + joined(plan.drop_first())
    }
}

/// What `run_from` comes to at the `i`-th insertion of a plan.
pub proof fn lemma_run_step(origin: Seq<u8>, origin_fails: bool, from: int, plan: Seq<Insertion>, i: int)
    requires
        0 <= i < plan.len(),
    ensures
        run_from(origin, origin_fails, from, plan.skip(i)) == ({
            let at = landing(origin.len(), from, plan[i].offset);
            let gap = origin.subrange(from, at);
            if origin_fails && plan[i].offset > origin.len() {
                Outcome { bytes: gap, clean: false }
            } else if plan[i].fails {
                Outcome { bytes: gap + plan[i].content, clean: false }
            } else {
                let rest = run_from(origin, origin_fails, at, plan.skip(i + 1));
                Outcome { bytes: gap + plan[i].content + rest.bytes, clean: rest.clean }
            }
        }),
{
    assert(plan.skip(i)[0] == plan[i]);
    assert(plan.skip(i).drop_first() =~= plan.skip(i + 1));
}

/// What `run_from` comes to behind the last insertion of a plan.
pub proof fn lemma_run_end(origin: Seq<u8>, origin_fails: bool, from: int, plan: Seq<Insertion>)
    ensures
        run_from(origin, origin_fails, from, plan.skip(plan.len() as int)) == (Outcome {
            bytes: origin.subrange(from, origin.len() as int),
            clean: !origin_fails,
        }),
{
    assert(plan.skip(plan.len() as int).len() == 0);
}

/// A splice with nothing to insert is the origin itself.
pub proof fn lemma_nothing_inserted(origin: Seq<u8>)
    ensures
        spliced(origin, Seq::empty()) == origin,
        run(origin, false, Seq::empty()) == (Outcome { bytes: origin, clean: true }),
{
    assert(origin.subrange(0, origin.len() as int) =~= origin);
}

/// Where no stream fails, a run ends cleanly and emits the whole splice.
pub proof fn lemma_clean_run(origin: Seq<u8>, from: int, plan: Seq<Insertion>)
    requires
        all_clean(plan),
    ensures
        run_from(origin, false, from, plan) == (Outcome {
            bytes: spliced_from(origin, from, plan),
            clean: true,
        }),
    decreases plan.len(),
{
    if plan.len() > 0 {
        let rest = plan.drop_first();
        assert(!plan[0].fails);
        assert forall|i: int| 0 <= i < rest.len() implies !(#[trigger] rest[i]).fails by {
            assert(rest[i] == plan[i + 1]);
        }
        lemma_clean_run(origin, landing(origin.len(), from, plan[0].offset), rest);
    }
}

/// A run ends cleanly only where it met no failing stream, and it has then
/// emitted the whole splice; a run that fails has emitted a front part of
/// the splice.
pub proof fn lemma_run_within_splice(
    origin: Seq<u8>,
    origin_fails: bool,
    from: int,
    plan: Seq<Insertion>,
)
    requires
        0 <= from <= origin.len(),
    ensures
        run_from(origin, origin_fails, from, plan).bytes.is_prefix_of(
            spliced_from(origin, from, plan),
        ),
        run_from(origin, origin_fails, from, plan).clean ==> !origin_fails && all_clean(plan)
            && run_from(origin, origin_fails, from, plan).bytes == spliced_from(origin, from, plan),
    decreases plan.len(),
{
    let out = run_from(origin, origin_fails, from, plan);
    let whole = spliced_from(origin, from, plan);
    if plan.len() > 0 {
        let rest = plan.drop_first();
        let at = landing(origin.len(), from, plan[0].offset);
        let gap = origin.subrange(from, at);
        lemma_run_within_splice(origin, origin_fails, at, rest);
        let more = spliced_from(origin, at, rest);
        if origin_fails && plan[0].offset > origin.len() {
            assert(gap =~= whole.subrange(0, gap.len() as int));
        } else if plan[0].fails {
            assert(gap + plan[0].content =~= whole.subrange(
                0,
                (gap + plan[0].content).len() as int,
            ));
        } else {
            let tail = run_from(origin, origin_fails, at, rest).bytes;
            assert(tail =~= more.subrange(0, tail.len() as int));
            assert(out.bytes =~= whole.subrange(0, out.bytes.len() as int));
            if out.clean {
                assert forall|i: int| 0 <= i < plan.len() implies !(#[trigger] plan[i]).fails by {
                    if i > 0 {
                        assert(plan[i] == rest[i - 1]);
                    }
                }
            }
        }
    } else {
        assert(out.bytes =~= whole.subrange(0, out.bytes.len() as int));
    }
}

/// The slot for a new insertion lies within the plan, behind an insertion due
/// at its offset or before it, and before every insertion behind the slot is
/// one due later.
pub proof fn lemma_slot(plan: Seq<Insertion>, offset: nat)
    ensures
        0 <= slot(plan, offset) <= plan.len(),
        slot(plan, offset) > 0 ==> plan[slot(plan, offset) - 1].offset <= offset,
        forall|i: int| slot(plan, offset) <= i < plan.len() ==> (#[trigger] plan[i]).offset > offset,
    decreases plan.len(),
{
    if plan.len() > 0 && plan.last().offset > offset {
        let front = plan.drop_last();
        lemma_slot(front, offset);
        assert forall|i: int| slot(plan, offset) <= i < plan.len() implies (#[trigger] plan[i]).offset
            > offset by {
            if i < front.len() {
                assert(plan[i] == front[i]);
            }
        }
    }
}

/// Registering an insertion keeps every insertion of the plan, in the order
/// they had, and puts the new one behind all those due at its offset or
/// before it: an ascending plan stays ascending, and among insertions due at
/// one offset the one registered first comes first.
pub proof fn lemma_placed(plan: Seq<Insertion>, item: Insertion)
    ensures
        placed(plan, item).len() == plan.len() + 1,
        0 <= slot(plan, item.offset) <= plan.len(),
        placed(plan, item)[slot(plan, item.offset)] == item,
        forall|i: int| 0 <= i < slot(plan, item.offset) ==> placed(plan, item)[i] == plan[i],
        forall|i: int|
            slot(plan, item.offset) <= i < plan.len() ==> #[trigger] placed(plan, item)[i + 1]
                == plan[i],
        ascending(plan) ==> forall|i: int|
            0 <= i < slot(plan, item.offset) ==> (#[trigger] plan[i]).offset <= item.offset,
        forall|i: int|
            slot(plan, item.offset) <= i < plan.len() ==> (#[trigger] plan[i]).offset > item.offset,
        ascending(plan) ==> ascending(placed(plan, item)),
        all_clean(plan) && !item.fails ==> all_clean(placed(plan, item)),
{
    let k = slot(plan, item.offset);
    let grown = placed(plan, item);
    lemma_slot(plan, item.offset);
    if ascending(plan) {
        assert forall|i: int| 0 <= i < k implies (#[trigger] plan[i]).offset <= item.offset by {
            assert(plan[i].offset <= plan[k - 1].offset);
        }
        assert forall|i: int, j: int| 0 <= i < j < grown.len() implies grown[i].offset
            <= grown[j].offset by {
            let a = if i < k { plan[i] } else if i == k { item } else { plan[i - 1] };
            let b = if j < k { plan[j] } else if j == k { item } else { plan[j - 1] };
            assert(grown[i] == a);
            assert(grown[j] == b);
        }
    }
    if all_clean(plan) && !item.fails {
        assert forall|i: int| 0 <= i < grown.len() implies !(#[trigger] grown[i]).fails by {
            let a = if i < k { plan[i] } else if i == k { item } else { plan[i - 1] };
            assert(grown[i] == a);
        }
    }
}

/// However insertions are registered, the plan they make is ascending, holds
/// as many insertions as were registered, and is clean where they all are.
pub proof fn lemma_arranged(registered: Seq<Insertion>)
    ensures
        arranged(registered).len() == registered.len(),
        ascending(arranged(registered)),
        all_clean(registered) ==> all_clean(arranged(registered)),
    decreases registered.len(),
{
    if registered.len() > 0 {
        let front = registered.drop_last();
        lemma_arranged(front);
        lemma_placed(arranged(front), registered.last());
        if all_clean(registered) {
            assert(!registered[registered.len() - 1].fails);
            assert forall|i: int| 0 <= i < front.len() implies !(#[trigger] front[i]).fails by {
                assert(front[i] == registered[i]);
            }
        }
    }
}

} // verus!
