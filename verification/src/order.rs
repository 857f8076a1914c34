//! The order in which registered insertions come to stand in the plan.

use crate::splice::{
    arranged, ascending, lemma_arranged, lemma_placed, lemma_slot, placed, slot, Insertion,
};
use vstd::prelude::*;

verus! {

/// Whether the insertion registered `b`-th is emitted before the one
/// registered `a`-th: it is due earlier, or due at the same offset and
/// registered earlier.
pub open spec fn goes_before(registered: Seq<Insertion>, b: int, a: int) -> bool {
    registered[b].offset < registered[a].offset || (registered[b].offset == registered[a].offset
        && b < a)
}

/// How many of the first `n` registered insertions are emitted before the
/// one registered `a`-th.
pub open spec fn ahead(registered: Seq<Insertion>, a: int, n: int) -> int
    decreases n,
{
    if n <= 0 {
        0
    } else {
        ahead(registered, a, n - 1) + if goes_before(registered, n - 1, a) {
            1int
        } else {
            0int
        }
    }
}

/// The place in the plan of the insertion registered `a`-th: behind all
/// those that are emitted before it.
pub open spec fn rank(registered: Seq<Insertion>, a: int) -> int {
    ahead(registered, a, registered.len() as int)
}

/// How many insertions of a plan are due at `offset` or before it.
spec fn due(plan: Seq<Insertion>, offset: nat) -> int
    decreases plan.len(),
{
    if plan.len() == 0 {
        0
    } else {
        due(plan.drop_last(), offset) + if plan.last().offset <= offset {
            1int
        } else {
            0int
        }
    }
}

proof fn lemma_due_add(a: Seq<Insertion>, b: Seq<Insertion>, offset: nat)
    ensures
        due(a + b, offset) == due(a, offset) + due(b, offset),
    decreases b.len(),
{
    if b.len() == 0 {
        assert(a + b =~= a);
    } else {
        assert((a + b).drop_last() =~= a + b.drop_last());
        lemma_due_add(a, b.drop_last(), offset);
    }
}

proof fn lemma_due_one(item: Insertion, offset: nat)
    ensures
        due(seq![item], offset) == if item.offset <= offset {
            1int
        } else {
            0int
        },
{
    assert(seq![item].drop_last() =~= Seq::<Insertion>::empty());
    assert(due(seq![item].drop_last(), offset) == 0);
}

/// In an ascending plan the insertions due at an offset or before it are
/// those in front of the slot for that offset.
proof fn lemma_due_is_slot(plan: Seq<Insertion>, offset: nat)
    requires
        ascending(plan),
    ensures
        due(plan, offset) == slot(plan, offset),
    decreases plan.len(),
{
    if plan.len() > 0 {
        let front = plan.drop_last();
        assert forall|i: int, j: int| 0 <= i < j < front.len() implies front[i].offset
            <= front[j].offset by {
            assert(front[i] == plan[i]);
            assert(front[j] == plan[j]);
        }
        lemma_due_is_slot(front, offset);
        if plan.last().offset <= offset {
            lemma_all_due(front, offset, plan.last().offset);
        }
    }
}

/// Where every insertion of a plan is due at `bound` or before it, and
/// `bound` is no later than `offset`, all of them are due at `offset` or
/// before it.
proof fn lemma_all_due(plan: Seq<Insertion>, offset: nat, bound: nat)
    requires
        bound <= offset,
        forall|i: int| 0 <= i < plan.len() ==> (#[trigger] plan[i]).offset <= bound,
    ensures
        due(plan, offset) == plan.len(),
    decreases plan.len(),
{
    if plan.len() > 0 {
        let front = plan.drop_last();
        assert(plan[plan.len() - 1].offset <= bound);
        assert forall|i: int| 0 <= i < front.len() implies (#[trigger] front[i]).offset
            <= bound by {
            assert(front[i] == plan[i]);
        }
        lemma_all_due(front, offset, bound);
    }
}

/// The plan holds as many insertions due at an offset or before it as were
/// registered.
proof fn lemma_due_arranged(registered: Seq<Insertion>, offset: nat)
    ensures
        due(arranged(registered), offset) == due(registered, offset),
    decreases registered.len(),
{
    if registered.len() > 0 {
        let front = registered.drop_last();
        let item = registered.last();
        let plan = arranged(front);
        let k = slot(plan, item.offset);
        lemma_due_arranged(front, offset);
        lemma_slot(plan, item.offset);
        assert(placed(plan, item) =~= plan.take(k) + seq![item] + plan.skip(k));
        assert(plan =~= plan.take(k) + plan.skip(k));
        lemma_due_add(plan.take(k), plan.skip(k), offset);
        lemma_due_add(plan.take(k) + seq![item], plan.skip(k), offset);
        lemma_due_add(plan.take(k), seq![item], offset);
        lemma_due_one(item, offset);
    }
}

/// Counting ahead of an insertion looks only at the insertions counted and
/// at the insertion itself.
proof fn lemma_ahead_front(registered: Seq<Insertion>, a: int, n: int)
    requires
        0 <= a < registered.len() - 1,
        0 <= n <= registered.len() - 1,
    ensures
        ahead(registered.drop_last(), a, n) == ahead(registered, a, n),
    decreases n,
{
    if n > 0 {
        lemma_ahead_front(registered, a, n - 1);
        assert(registered.drop_last()[n - 1] == registered[n - 1]);
        assert(registered.drop_last()[a] == registered[a]);
    }
}

/// Ahead of the insertion registered last are all those due at its offset or
/// before it.
proof fn lemma_ahead_last(registered: Seq<Insertion>, n: int)
    requires
        registered.len() > 0,
        0 <= n <= registered.len() - 1,
    ensures
        ahead(registered, registered.len() - 1, n) == due(
            registered.take(n),
            registered.last().offset,
        ),
    decreases n,
{
    if n > 0 {
        lemma_ahead_last(registered, n - 1);
        assert(registered.take(n).drop_last() =~= registered.take(n - 1));
        assert(registered.take(n).last() == registered[n - 1]);
    }
}

/// However insertions are registered, each stands in the plan behind exactly
/// those that are due earlier, or that are due at its offset and were
/// registered earlier: the plan is in ascending order of offset, and among
/// insertions due at one offset in the order of registration.
pub proof fn lemma_rank(registered: Seq<Insertion>, a: int)
    requires
        0 <= a < registered.len(),
    ensures
        0 <= rank(registered, a) < registered.len(),
        arranged(registered).len() == registered.len(),
        arranged(registered)[rank(registered, a)] == registered[a],
    decreases registered.len(),
{
    let n = registered.len() - 1;
    let front = registered.drop_last();
    let item = registered.last();
    let plan = arranged(front);
    let k = slot(plan, item.offset);
    lemma_arranged(registered);
    lemma_arranged(front);
    lemma_placed(plan, item);
    if a == n {
        lemma_ahead_last(registered, n);
        assert(registered.take(n) =~= front);
        lemma_due_arranged(front, item.offset);
        lemma_due_is_slot(plan, item.offset);
        assert(rank(registered, a) == k);
    } else {
        lemma_rank(front, a);
        lemma_ahead_front(registered, a, n);
        let r = rank(front, a);
        assert(front[a] == registered[a]);
        assert(plan[r] == registered[a]);
        if r < k {
            assert(plan[r].offset <= item.offset);
            assert(!goes_before(registered, n, a));
        } else {
            assert(plan[r].offset > item.offset);
            assert(goes_before(registered, n, a));
            assert(placed(plan, item)[r + 1] == plan[r]);
        }
    }
}

/// Of the first `n` registered insertions no more are ahead of an insertion
/// than of one that is emitted behind it, and fewer once the insertion is
/// itself among them.
proof fn lemma_ahead_grows(registered: Seq<Insertion>, a: int, b: int, n: int)
    requires
        0 <= a < registered.len(),
        0 <= b < registered.len(),
        goes_before(registered, a, b),
        0 <= n <= registered.len(),
    ensures
        ahead(registered, a, n) <= ahead(registered, b, n),
        a < n ==> ahead(registered, a, n) < ahead(registered, b, n),
    decreases n,
{
    if n > 0 {
        lemma_ahead_grows(registered, a, b, n - 1);
    }
}

/// An insertion that is due earlier than another, or due at the same offset
/// and registered earlier, stands before it in the plan.
pub proof fn lemma_rank_order(registered: Seq<Insertion>, a: int, b: int)
    requires
        0 <= a < registered.len(),
        0 <= b < registered.len(),
        goes_before(registered, a, b),
    ensures
        rank(registered, a) < rank(registered, b),
{
    lemma_ahead_grows(registered, a, b, registered.len() as int);
}

} // verus!
