//! Where the bytes of the origin and of the insertions come to stand in a
//! splice.

use crate::splice::{
    arranged, ascending, joined, landing, lemma_slot, placed, slot, spliced, spliced_from,
    Insertion,
};
use vstd::prelude::*;

verus! {

/// The number of bytes that the insertions of a plan hold together.
pub open spec fn inserted(plan: Seq<Insertion>) -> nat
    decreases plan.len(),
{
    if plan.len() == 0 {
        0
    } else {
        plan[0].content.len() + inserted(plan.drop_first())
    }
}

/// The origin position that a splice has come to when it has emitted the
/// plan's insertions, starting from position `from`.
spec fn reached(len: nat, from: int, plan: Seq<Insertion>) -> int
    decreases plan.len(),
{
    if plan.len() == 0 {
        from
    } else {
        reached(len, landing(len, from, plan[0].offset), plan.drop_first())
    }
}

/// The bytes that a splice emits up to and with the last insertion of the
/// plan, starting from origin position `from`.
spec fn emitted(origin: Seq<u8>, from: int, plan: Seq<Insertion>) -> Seq<u8>
    decreases plan.len(),
{
    if plan.len() == 0 {
        Seq::empty()
    } else {
        let at = landing(origin.len(), from, plan[0].offset);
        origin.subrange(from, at) + plan[0].content + emitted(origin, at, plan.drop_first())
    }
}

/// Where in the spliced output the `k`-th insertion of the plan begins: at
/// its offset, or at the end of the origin if the offset lies beyond it,
/// moved on by the bytes of the insertions before it.
pub open spec fn window(len: nat, plan: Seq<Insertion>, k: int) -> int {
    let held = if plan[k].offset <= len {
        plan[k].offset
    } else {
        len
    };
    (held + inserted(plan.take(k))) as int
}

/// Where in the spliced output the origin's byte `i` comes to stand: moved on
/// by the bytes of the insertions that are due at `i` or before it.
pub open spec fn carried(plan: Seq<Insertion>, i: int) -> int {
    i + inserted(plan.take(slot(plan, i as nat)))
}

/// The bytes of two plans in a row are the bytes of both.
pub proof fn lemma_inserted_add(a: Seq<Insertion>, b: Seq<Insertion>)
    ensures
        inserted(a + b) == inserted(a) + inserted(b),
    decreases a.len(),
{
    if a.len() == 0 {
        assert(a + b =~= b);
    } else {
        assert((a + b).drop_first() =~= a.drop_first() + b);
        lemma_inserted_add(a.drop_first(), b);
    }
}

/// The plan that registered insertions make holds as many bytes as they do.
pub proof fn lemma_arranged_bytes(registered: Seq<Insertion>)
    ensures
        inserted(arranged(registered)) == inserted(registered),
    decreases registered.len(),
{
    if registered.len() > 0 {
        let front = registered.drop_last();
        let item = registered.last();
        let plan = arranged(front);
        let k = slot(plan, item.offset);
        let one = seq![item];
        lemma_arranged_bytes(front);
        lemma_slot(plan, item.offset);
        assert(placed(plan, item) =~= plan.take(k) + one + plan.skip(k));
        assert(plan =~= plan.take(k) + plan.skip(k));
        lemma_inserted_add(plan.take(k), plan.skip(k));
        lemma_inserted_add(plan.take(k) + one, plan.skip(k));
        lemma_inserted_add(plan.take(k), one);
        assert(registered =~= front + one);
        lemma_inserted_add(front, one);
    }
}

/// A splice emits what it emits up to the last insertion of a first part of
/// the plan, and then the splice of the rest from where it has come to.
proof fn lemma_split(origin: Seq<u8>, from: int, a: Seq<Insertion>, b: Seq<Insertion>)
    requires
        0 <= from <= origin.len(),
    ensures
        from <= reached(origin.len(), from, a) <= origin.len(),
        emitted(origin, from, a).len() == reached(origin.len(), from, a) - from + inserted(a),
        spliced_from(origin, from, a + b) == emitted(origin, from, a) + spliced_from(
            origin,
            reached(origin.len(), from, a),
            b,
        ),
    decreases a.len(),
{
    if a.len() == 0 {
        assert(a + b =~= b);
        assert(emitted(origin, from, a) + spliced_from(origin, from, b) =~= spliced_from(
            origin,
            from,
            b,
        ));
    } else {
        let at = landing(origin.len(), from, a[0].offset);
        assert((a + b).drop_first() =~= a.drop_first() + b);
        assert((a + b)[0] == a[0]);
        lemma_split(origin, at, a.drop_first(), b);
        let gap = origin.subrange(from, at);
        let rest = emitted(origin, at, a.drop_first());
        let tail = spliced_from(origin, reached(origin.len(), from, a), b);
        assert(gap + a[0].content + (rest + tail) =~= gap + a[0].content + rest + tail);
    }
}

/// Behind an ascending plan a splice that began no later than the plan's
/// first offset has come to the offset of the plan's last insertion, or to
/// the origin's end if that offset lies beyond it.
proof fn lemma_reached(len: nat, from: int, plan: Seq<Insertion>)
    requires
        0 <= from <= len,
        ascending(plan),
        plan.len() > 0,
        from <= plan[0].offset,
    ensures
        reached(len, from, plan) == if plan.last().offset <= len {
            plan.last().offset as int
        } else {
            len as int
        },
    decreases plan.len(),
{
    let rest = plan.drop_first();
    let at = landing(len, from, plan[0].offset);
    if rest.len() == 0 {
        assert(reached(len, at, rest) == at);
    } else {
        assert(plan[0].offset <= plan[1].offset);
        assert(rest[0] == plan[1]);
        assert(rest.last() == plan.last());
        assert forall|i: int, j: int| 0 <= i < j < rest.len() implies rest[i].offset
            <= rest[j].offset by {
            assert(rest[i] == plan[i + 1]);
            assert(rest[j] == plan[j + 1]);
        }
        lemma_reached(len, at, rest);
    }
}

/// Nothing is lost and nothing is added: the spliced output holds as many
/// bytes as the origin and the insertions together.
pub proof fn lemma_spliced_len(origin: Seq<u8>, plan: Seq<Insertion>)
    ensures
        spliced(origin, plan).len() == origin.len() + inserted(plan),
{
    assert(plan + Seq::<Insertion>::empty() =~= plan);
    lemma_split(origin, 0, plan, Seq::empty());
}

/// Every insertion of an ascending plan stands whole in the spliced output,
/// its bytes side by side and in their order, beginning at its window.
pub proof fn lemma_insertion_kept(origin: Seq<u8>, plan: Seq<Insertion>, k: int)
    requires
        ascending(plan),
        0 <= k < plan.len(),
    ensures
        0 <= window(origin.len(), plan, k),
        window(origin.len(), plan, k) + plan[k].content.len() <= spliced(origin, plan).len(),
        spliced(origin, plan).subrange(
            window(origin.len(), plan, k),
            window(origin.len(), plan, k) + plan[k].content.len(),
        ) == plan[k].content,
{
    let len = origin.len();
    let before = plan.take(k);
    let behind = plan.skip(k);
    assert(before + behind =~= plan);
    lemma_split(origin, 0, before, behind);
    let from = reached(len, 0, before);
    if k > 0 {
        assert(before[0] == plan[0]);
        assert(before.last() == plan[k - 1]);
        assert forall|i: int, j: int| 0 <= i < j < before.len() implies before[i].offset
            <= before[j].offset by {
            assert(before[i] == plan[i]);
            assert(before[j] == plan[j]);
        }
        lemma_reached(len, 0, before);
    }
    let at = landing(len, from, plan[k].offset);
    assert(behind[0] == plan[k]);
    let head = emitted(origin, 0, before);
    let gap = origin.subrange(from, at);
    let rest = spliced_from(origin, at, behind.drop_first());
    let whole = spliced(origin, plan);
    assert(whole == head + (gap + plan[k].content + rest));
    assert(window(len, plan, k) == head.len() + gap.len());
    assert(whole.subrange(
        window(len, plan, k),
        window(len, plan, k) + plan[k].content.len(),
    ) =~= plan[k].content);
}

/// The insertions of an ascending plan stand in the spliced output in the
/// order of the plan, none reaching into the next.
pub proof fn lemma_insertions_in_order(len: nat, plan: Seq<Insertion>, j: int, k: int)
    requires
        ascending(plan),
        0 <= j < k < plan.len(),
    ensures
        window(len, plan, j) + plan[j].content.len() <= window(len, plan, k),
{
    let mid = plan.subrange(j, k);
    assert(plan.take(j) + mid =~= plan.take(k));
    lemma_inserted_add(plan.take(j), mid);
    assert(mid[0] == plan[j]);
}

/// Every byte of the origin stands in the spliced output of an ascending
/// plan, at the place it is carried to.
pub proof fn lemma_origin_kept(origin: Seq<u8>, plan: Seq<Insertion>, i: int)
    requires
        ascending(plan),
        0 <= i < origin.len(),
    ensures
        0 <= carried(plan, i) < spliced(origin, plan).len(),
        spliced(origin, plan)[carried(plan, i)] == origin[i],
{
    let len = origin.len();
    let k = slot(plan, i as nat);
    lemma_slot(plan, i as nat);
    let before = plan.take(k);
    let behind = plan.skip(k);
    assert(before + behind =~= plan);
    lemma_split(origin, 0, before, behind);
    let from = reached(len, 0, before);
    if k > 0 {
        assert(before[0] == plan[0]);
        assert(before.last() == plan[k - 1]);
        assert forall|a: int, b: int| 0 <= a < b < before.len() implies before[a].offset
            <= before[b].offset by {
            assert(before[a] == plan[a]);
            assert(before[b] == plan[b]);
        }
        lemma_reached(len, 0, before);
    }
    assert(from <= i);
    let head = emitted(origin, 0, before);
    let tail = spliced_from(origin, from, behind);
    let whole = spliced(origin, plan);
    assert(whole == head + tail);
    assert(carried(plan, i) == head.len() + (i - from));
    if behind.len() == 0 {
        assert(tail[i - from] == origin[i]);
    } else {
        assert(behind[0] == plan[k]);
        let at = landing(len, from, plan[k].offset);
        assert(i < at);
        assert(origin.subrange(from, at)[i - from] == origin[i]);
        assert(tail[i - from] == origin[i]);
    }
}

/// The origin's bytes stand in the spliced output in their order, each once:
/// a later byte is carried to a later place.
pub proof fn lemma_origin_in_order(plan: Seq<Insertion>, i: int, j: int)
    requires
        ascending(plan),
        0 <= i < j,
    ensures
        carried(plan, i) < carried(plan, j),
{
    let a = slot(plan, i as nat);
    let b = slot(plan, j as nat);
    lemma_slot(plan, i as nat);
    lemma_slot(plan, j as nat);
    if b < a {
        assert(plan[a - 1].offset <= i);
        assert(plan[a - 1].offset > j);
    }
    assert(plan.take(a) + plan.subrange(a, b) =~= plan.take(b));
    lemma_inserted_add(plan.take(a), plan.subrange(a, b));
}

/// No byte of the origin stands among the bytes of an insertion: it stands
/// behind the insertions that are due at its position or before it, and
/// before those that are due later.
pub proof fn lemma_origin_beside_insertions(len: nat, plan: Seq<Insertion>, i: int, k: int)
    requires
        ascending(plan),
        0 <= i < len,
        0 <= k < plan.len(),
    ensures
        plan[k].offset <= i ==> window(len, plan, k) + plan[k].content.len() <= carried(plan, i),
        plan[k].offset > i ==> carried(plan, i) < window(len, plan, k),
{
    let s = slot(plan, i as nat);
    lemma_slot(plan, i as nat);
    if plan[k].offset <= i {
        assert(k < s);
        let mid = plan.subrange(k, s);
        assert(plan.take(k) + mid =~= plan.take(s));
        lemma_inserted_add(plan.take(k), mid);
        assert(mid[0] == plan[k]);
    } else {
        if s > k {
            assert(plan[k].offset <= plan[s - 1].offset);
        }
        assert(plan.take(s) + plan.subrange(s, k) =~= plan.take(k));
        lemma_inserted_add(plan.take(s), plan.subrange(s, k));
    }
}

/// Insertions due at the origin's end or beyond it are emitted behind all of
/// the origin, one after the other in the order of the plan.
pub proof fn lemma_past_end(origin: Seq<u8>, early: Seq<Insertion>, late: Seq<Insertion>)
    requires
        forall|k: int| 0 <= k < late.len() ==> (#[trigger] late[k]).offset >= origin.len(),
    ensures
        spliced(origin, early + late) == spliced(origin, early) + joined(late),
        spliced(origin, late) == origin + joined(late),
{
    lemma_split(origin, 0, early, late);
    assert(early + Seq::<Insertion>::empty() =~= early);
    lemma_split(origin, 0, early, Seq::empty());
    let from = reached(origin.len(), 0, early);
    lemma_beyond(origin, from, late);
    assert(emitted(origin, 0, early) + (origin.subrange(from, origin.len() as int) + joined(late))
        =~= emitted(origin, 0, early) + origin.subrange(from, origin.len() as int) + joined(late));
    assert(Seq::<Insertion>::empty() + late =~= late);
    lemma_beyond(origin, 0, late);
    assert(origin.subrange(0, origin.len() as int) =~= origin);
}

/// From any position a splice of insertions due at the origin's end or beyond
/// it emits the rest of the origin and then the insertions.
proof fn lemma_beyond(origin: Seq<u8>, from: int, late: Seq<Insertion>)
    requires
        0 <= from <= origin.len(),
        forall|k: int| 0 <= k < late.len() ==> (#[trigger] late[k]).offset >= origin.len(),
    ensures
        spliced_from(origin, from, late) == origin.subrange(from, origin.len() as int) + joined(
            late,
        ),
    decreases late.len(),
{
    let len = origin.len() as int;
    if late.len() == 0 {
        assert(origin.subrange(from, len) + joined(late) =~= origin.subrange(from, len));
    } else {
        let rest = late.drop_first();
        assert(late[0].offset >= origin.len());
        assert forall|k: int| 0 <= k < rest.len() implies (#[trigger] rest[k]).offset
            >= origin.len() by {
            assert(rest[k] == late[k + 1]);
        }
        lemma_beyond(origin, len, rest);
        assert(landing(origin.len(), from, late[0].offset) == len);
        assert(origin.subrange(len, len) =~= Seq::<u8>::empty());
        assert(origin.subrange(from, len) + late[0].content + (origin.subrange(len, len) + joined(
            rest,
        )) =~= origin.subrange(from, len) + (late[0].content + joined(rest)));
    }
}

} // verus!
