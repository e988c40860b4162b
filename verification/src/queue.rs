//! A queue that hands out its cheapest entry first.

use vstd::prelude::*;
use vstd::multiset::Multiset;
use crate::ids::IntersectionID;

verus! {

/// An intersection, with the cost at which it was reached.
#[derive(Clone, Copy, Debug, PartialEq, Eq, Structural)]
pub struct PriorityQueueItem {
    pub cost: u64,
    pub value: IntersectionID,
}

impl PriorityQueueItem {
    /// An entry for intersection `value`, reached at `cost`.
    pub fn new(cost: u64, value: IntersectionID) -> (item: PriorityQueueItem)
        ensures
            item.cost == cost,
            item.value == value,
    {
        PriorityQueueItem { cost, value }
    }
}

/// The entry at position `above` is no more expensive than the two entries
/// right below it in the heap, left out of account the entry at `skip`.
spec fn tops(items: Seq<PriorityQueueItem>, above: int, skip: int) -> bool {
    &&& 2 * above + 1 < items.len() && 2 * above + 1 != skip ==> items[above].cost
        <= items[2 * above + 1].cost
    &&& 2 * above + 2 < items.len() && 2 * above + 2 != skip ==> items[above].cost
        <= items[2 * above + 2].cost
}

/// The entry at position `higher` is no more expensive than the two entries
/// right below position `gap`.
spec fn spans(items: Seq<PriorityQueueItem>, higher: int, gap: int) -> bool {
    &&& 2 * gap + 1 < items.len() ==> items[higher].cost <= items[2 * gap + 1].cost
    &&& 2 * gap + 2 < items.len() ==> items[higher].cost <= items[2 * gap + 2].cost
}

/// No entry is cheaper than the one above it in the heap.
spec fn heap(items: Seq<PriorityQueueItem>) -> bool {
    forall|above: int| 0 <= above < items.len() ==> #[trigger] tops(items, above, -1)
}

/// The heap is in order but that the entry at `gap` may be cheaper than the
/// one above it, at `higher`.
spec fn heap_rising(items: Seq<PriorityQueueItem>, gap: int, higher: int) -> bool {
    &&& forall|above: int| 0 <= above < items.len() ==> #[trigger] tops(items, above, gap)
    &&& gap >= 1 ==> 0 <= higher < gap && (gap == 2 * higher + 1 || gap == 2 * higher + 2)
            && spans(items, higher, gap)
}

/// The heap is in order but that the entries right below `gap` may be cheaper
/// than the one at `gap`; the one above `gap`, at `higher`, is not more
/// expensive than they.
spec fn heap_sinking(items: Seq<PriorityQueueItem>, gap: int, higher: int) -> bool {
    &&& forall|above: int|
        0 <= above < items.len() && above != gap ==> #[trigger] tops(items, above, -1)
    &&& gap >= 1 ==> 0 <= higher < gap && (gap == 2 * higher + 1 || gap == 2 * higher + 2)
            && spans(items, higher, gap)
}

/// The entry on top of a heap is a cheapest one.
proof fn lemma_top_is_least(items: Seq<PriorityQueueItem>, i: int)
    requires
        heap(items),
        0 <= i < items.len(),
    ensures
        items[0].cost <= items[i].cost,
    decreases i,
{
    if i > 0 {
        let above = (i - 1) / 2;
        assert(tops(items, above, -1));
        lemma_top_is_least(items, above);
    }
}

/// Two entries that change places leave the bag as it was.
proof fn lemma_swap(items: Seq<PriorityQueueItem>, i: int, j: int)
    requires
        0 <= i < items.len(),
        0 <= j < items.len(),
    ensures
        items.update(i, items[j]).update(j, items[i]).to_multiset() == items.to_multiset(),
{
    broadcast use vstd::seq_lib::group_to_multiset_ensures;
    broadcast use vstd::multiset::group_multiset_axioms;

    let a = items[i];
    let b = items[j];
    let s1 = items.update(i, b);
    let s2 = s1.update(j, a);
    assert(s1 =~= items.remove(i).insert(i, b));
    vstd::seq_lib::to_multiset_insert(items.remove(i), i, b);
    assert(s2 =~= s1.remove(j).insert(j, a));
    vstd::seq_lib::to_multiset_insert(s1.remove(j), j, a);
    assert(s2.to_multiset() =~= items.to_multiset());
}

/// A bag of entries, kept as a heap. `pop` takes out one of least cost.
pub struct CostQueue {
    items: Vec<PriorityQueueItem>,
}

impl View for CostQueue {
    type V = Multiset<PriorityQueueItem>;

    closed spec fn view(&self) -> Multiset<PriorityQueueItem> {
        self.items@.to_multiset()
    }
}

impl CostQueue {
    /// The entries are in heap order.
    pub closed spec fn wf(&self) -> bool {
        heap(self.items@)
    }

    /// An empty queue.
    pub fn new() -> (queue: CostQueue)
        ensures
            queue.wf(),
            queue@ == Multiset::<PriorityQueueItem>::empty(),
    {
        broadcast use vstd::seq_lib::group_to_multiset_ensures;

        let queue = CostQueue { items: Vec::new() };
        assert(queue.items@.to_multiset().len() == 0);
        assert(queue@ =~= Multiset::<PriorityQueueItem>::empty());
        queue
    }

    /// The number of entries.
    pub fn len(&self) -> (n: usize)
        ensures
            n == self@.len(),
    {
        broadcast use vstd::seq_lib::group_to_multiset_ensures;

        self.items.len()
    }

    /// Lets the entries at `i` and `j` change places.
    fn swap(&mut self, i: usize, j: usize)
        requires
            i < old(self).items.len(),
            j < old(self).items.len(),
        ensures
            final(self).items@ == old(self).items@.update(i as int, old(self).items[j as int]).update(
                j as int,
                old(self).items[i as int],
            ),
            final(self)@ == old(self)@,
    {
        proof {
            lemma_swap(self.items@, i as int, j as int);
        }
        let a = self.items[i];
        let b = self.items[j];
        self.items[i] = b;
        self.items[j] = a;
    }

    /// Adds an entry.
    pub fn push(&mut self, item: PriorityQueueItem)
        requires
            old(self).wf(),
        ensures
            final(self).wf(),
            final(self)@ == old(self)@.insert(item),
    {
        broadcast use vstd::seq_lib::group_to_multiset_ensures;

        self.items.push(item);
        let mut i: usize = self.items.len() - 1;
        proof {
            assert forall|above: int| 0 <= above < self.items.len() implies #[trigger] tops(
                self.items@,
                above,
                i as int,
            ) by {
                if above < old(self).items.len() {
                    assert(tops(old(self).items@, above, -1));
                }
            }
        }
        while i > 0 && self.items[(i - 1) / 2].cost > self.items[i].cost
            invariant
                i < self.items.len(),
                heap_rising(self.items@, i as int, (i as int - 1) / 2),
                self@ == old(self)@.insert(item),
            decreases i,
        {
            let above = (i - 1) / 2;
            let ghost before = self.items@;
            self.swap(above, i);
            proof {
                let higher = (above as int - 1) / 2;
                assert(tops(before, above as int, i as int));
                if above >= 1 {
                    assert(tops(before, higher, i as int));
                }
                assert forall|p: int| 0 <= p < self.items.len() implies #[trigger] tops(
                    self.items@,
                    p,
                    above as int,
                ) by {
                    assert(tops(before, p, i as int));
                }
            }
            i = above;
        }
        proof {
            assert forall|above: int| 0 <= above < self.items.len() implies #[trigger] tops(
                self.items@,
                above,
                -1,
            ) by {
                assert(tops(self.items@, above, i as int));
            }
        }
    }

    /// Takes out an entry whose cost no other entry undercuts. Which of
    /// several cheapest entries leaves is not fixed.
    pub fn pop(&mut self) -> (least: Option<PriorityQueueItem>)
        requires
            old(self).wf(),
        ensures
            final(self).wf(),
            old(self)@.len() == 0 ==> least is None && final(self)@ == old(self)@,
            old(self)@.len() > 0 ==> least is Some,
            least is Some ==> old(self)@ == final(self)@.insert(least->0),
            least is Some ==> forall|other: PriorityQueueItem| #[trigger]
                old(self)@.contains(other) ==> least->0.cost <= other.cost,
    {
        broadcast use vstd::seq_lib::group_to_multiset_ensures;

        let n = self.items.len();
        if n == 0 {
            return None;
        }
        proof {
            assert forall|other: PriorityQueueItem| #[trigger]
                self@.contains(other) implies self.items[0].cost <= other.cost by {
                assert(self.items@.contains(other));
                let j = choose|j: int| 0 <= j < self.items.len() && self.items[j] == other;
                lemma_top_is_least(self.items@, j);
            }
        }
        let ghost before = self.items@;
        self.swap(0, n - 1);
        let ghost swapped = self.items@;
        let least = self.items.pop().unwrap();
        proof {
            assert(swapped =~= self.items@.push(least));
            assert forall|above: int|
                0 <= above < self.items.len() && above != 0 implies #[trigger] tops(
                self.items@,
                above,
                -1,
            ) by {
                assert(tops(before, above, -1));
            }
        }
        let m = n - 1;
        let mut i: usize = 0;
        let ghost mut higher: int = 0;
        while i < m / 2
            invariant
                m == self.items.len(),
                heap_sinking(self.items@, i as int, higher),
                old(self)@ == self@.insert(least),
            ensures
                m == self.items.len(),
                heap(self.items@),
                old(self)@ == self@.insert(least),
            decreases m - i,
        {
            let left = 2 * i + 1;
            let right = left + 1;
            let mut lower = left;
            if right < m && self.items[right].cost < self.items[left].cost {
                lower = right;
            }
            if self.items[i].cost <= self.items[lower].cost {
                proof {
                    assert forall|above: int| 0 <= above < self.items.len() implies #[trigger] tops(
                        self.items@,
                        above,
                        -1,
                    ) by {
                    }
                }
                break;
            }
            let ghost sinking = self.items@;
            self.swap(i, lower);
            proof {
                assert(tops(sinking, lower as int, -1));
                if i >= 1 {
                    assert(tops(sinking, higher, -1));
                }
                assert forall|above: int|
                    0 <= above < self.items.len() && above != lower implies #[trigger] tops(
                    self.items@,
                    above,
                    -1,
                ) by {
                    if above != i {
                        assert(tops(sinking, above, -1));
                    }
                }
                higher = i as int;
            }
            i = lower;
        }
        proof {
            assert forall|above: int| 0 <= above < self.items.len() implies #[trigger] tops(
                self.items@,
                above,
                -1,
            ) by {
            }
        }
        Some(least)
    }
}

} // verus!
