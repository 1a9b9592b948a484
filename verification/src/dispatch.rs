//! Handing indexed work items out to the workers of a pool.
//!
//! Item `i` goes to worker `i mod n`, whatever the item costs. The items are
//! handed out from the last one to the first.

use crate::collector::tagged_with;
use vstd::prelude::*;

verus! {

/// The worker that the item at `index` goes to in a pool of `nthread` workers.
pub open spec fn slot_of(index: int, nthread: int) -> int {
    index % nthread
}

/// The first `count` work items in the order in which they are handed out:
/// the last item of `items` first, each with its index.
pub open spec fn handed_out<T>(items: Seq<T>, count: nat) -> Seq<(usize, T)> {
    Seq::new(
        count,
        |j: int| ((items.len() - 1 - j) as usize, items[items.len() - 1 - j]),
    )
}

/// The work items of `work` that belong to worker `slot` of `nthread`, in the
/// order in which they stand in `work`.
pub open spec fn share_of<T>(work: Seq<(usize, T)>, nthread: int, slot: int) -> Seq<(usize, T)> {
    work.filter(|item: (usize, T)| slot_of(item.0 as int, nthread) == slot)
}

/// What worker `slot` of `nthread` receives for `items`, in the order in
/// which it receives it.
pub open spec fn queue_of<T>(items: Seq<T>, nthread: int, slot: int) -> Seq<(usize, T)> {
    share_of(handed_out(items, items.len()), nthread, slot)
}

/// The worker for one index.
pub fn worker_for(index: usize, nthread: usize) -> (slot: usize)
    requires
        nthread > 0,
    ensures
        slot == slot_of(index as int, nthread as int),
        slot < nthread,
{
    index % nthread
}

/// Deals `vec` out to `nthread` workers. Queue `slot` of the result is what
/// worker `slot` is to receive, in that order. A pool without workers can
/// take no items.
pub fn deal<T>(vec: Vec<T>, nthread: usize) -> (queues: Vec<Vec<(usize, T)>>)
    requires
        nthread > 0 || vec.len() == 0,
    ensures
        queues.len() == nthread,
        forall|slot: int|
            0 <= slot < nthread ==> (#[trigger] queues[slot])@ == queue_of(
                vec@,
                nthread as int,
                slot,
            ),
{
    let ghost items = vec@;
    let mut vec = vec;
    let mut queues: Vec<Vec<(usize, T)>> = Vec::with_capacity(nthread);
    for slot in 0..nthread
        invariant
            queues.len() == slot,
            forall|s: int| 0 <= s < slot ==> (#[trigger] queues[s])@.len() == 0,
    {
        queues.push(Vec::new());
    }
    proof {
        reveal(Seq::filter);
        assert forall|s: int| 0 <= s < nthread implies (#[trigger] queues[s])@ == share_of(
            handed_out(items, 0),
            nthread as int,
            s,
        ) by {
            assert(queues[s]@ =~= Seq::empty());
        }
    }
    let mut index: usize = vec.len();
    while index > 0
        invariant
            nthread > 0 || items.len() == 0,
            index <= items.len(),
            vec@ == items.take(index as int),
            queues.len() == nthread,
            forall|s: int|
                0 <= s < nthread ==> (#[trigger] queues[s])@ == share_of(
                    handed_out(items, (items.len() - index) as nat),
                    nthread as int,
                    s,
                ),
        decreases index,
    {
        let ghost before = handed_out(items, (items.len() - index) as nat);
        let ghost old_queues = queues@;
        index -= 1;
        let item = vec.pop().unwrap();
        let slot = worker_for(index, nthread);
        queues[slot].push((index, item));
        proof {
            reveal(Seq::filter);
            let after = handed_out(items, (items.len() - index) as nat);
            assert(after.drop_last() =~= before);
            assert(after.last() == (index, item));
            assert(vec@ =~= items.take(index as int));
            assert forall|s: int| 0 <= s < nthread implies (#[trigger] queues[s])@ == share_of(
                after,
                nthread as int,
                s,
            ) by {
                if s != slot {
                    assert(queues[s] == old_queues[s]);
                }
            }
        }
    }
    queues
}

proof fn lemma_handed_out_covers<T>(items: Seq<T>, nthread: int, slot: int, index: usize, count: nat)
    requires
        nthread > 0,
        items.len() <= usize::MAX,
        count <= items.len(),
    ensures
        tagged_with(share_of(handed_out(items, count), nthread, slot), index) == if items.len()
            - count <= index < items.len() && slot_of(index as int, nthread) == slot {
            seq![(index, items[index as int])]
        } else {
            Seq::empty()
        },
    decreases count,
{
    reveal(Seq::filter);
    if count > 0 {
        let fewer = handed_out(items, (count - 1) as nat);
        let all = handed_out(items, count);
        let newest = ((items.len() - count) as usize, items[items.len() - count]);
        lemma_handed_out_covers(items, nthread, slot, index, (count - 1) as nat);
        assert(all.drop_last() =~= fewer);
        assert(all.last() == newest);
        let share = share_of(all, nthread, slot);
        if slot_of(newest.0 as int, nthread) == slot {
            assert(share == share_of(fewer, nthread, slot).push(newest));
            assert(share.drop_last() =~= share_of(fewer, nthread, slot));
            assert(share.last() == newest);
            if newest.0 == index {
                assert(tagged_with(share, index) =~= seq![(index, items[index as int])]);
            }
        }
    }
}

/// Index coverage. Every index of the input is dealt exactly once: it stands
/// once in the queue of the worker that its index names, with the item that
/// stands at that index, and in no other queue. No queue holds an index that
/// the input does not have.
pub proof fn lemma_every_index_dealt_once<T>(items: Seq<T>, nthread: int, slot: int, index: usize)
    requires
        nthread > 0,
        items.len() <= usize::MAX,
    ensures
        tagged_with(queue_of(items, nthread, slot), index) == if index < items.len() && slot_of(
            index as int,
            nthread,
        ) == slot {
            seq![(index, items[index as int])]
        } else {
            Seq::empty()
        },
{
    lemma_handed_out_covers(items, nthread, slot, index, items.len());
}

} // verus!
