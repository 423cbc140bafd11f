//! The priority queue of the searches.

use vstd::multiset::Multiset;
use vstd::prelude::*;

use crate::key_map::MapKey;
use crate::Cost;

verus! {

/// An entry of a search queue: a vertex, the cost at which it was reached, and the rank
/// by which the queue hands entries out, lowest rank first; among entries of the same rank,
/// that of the vertex of the lowest number comes first.
pub trait QueueEntry<Id: MapKey>: Copy {
    /// The entry of a vertex, given the cost of reaching it and the estimated rest.
    spec fn entry(id: Id, cost: Cost, estimate: Cost) -> Self;

    /// The vertex of the entry.
    spec fn vertex(&self) -> Id;

    /// The cost at which the vertex was reached.
    spec fn cost(&self) -> Cost;

    /// The rank of the entry.
    spec fn rank(&self) -> Cost;

    /// An entry holds what it was made of.
    proof fn lemma_entry(id: Id, cost: Cost, estimate: Cost)
        ensures
            Self::entry(id, cost, estimate).vertex() == id,
            Self::entry(id, cost, estimate).cost() == cost,
    ;

    /// A higher cost does not make for a lower rank.
    proof fn lemma_rank(id: Id, low: Cost, high: Cost, estimate: Cost)
        requires
            low <= high,
        ensures
            Self::entry(id, low, estimate).rank() <= Self::entry(id, high, estimate).rank(),
    ;

    /// Makes the entry of a vertex.
    fn new_entry(id: Id, cost: Cost, estimate: Cost) -> (entry: Self)
        ensures
            entry == Self::entry(id, cost, estimate),
    ;

    /// Takes the vertex out of the entry.
    fn into_vertex(self) -> (id: Id)
        ensures
            id == self.vertex(),
    ;

    /// Whether this entry has to be handed out before the other one.
    fn precedes(&self, other: &Self) -> (first: bool)
        ensures
            first == (self.rank() < other.rank() || self.rank() == other.rank()
                && self.vertex().code() < other.vertex().code()),
    ;
}

/// The entry may be handed out before the other one.
pub open spec fn comes_first<Id: MapKey, T: QueueEntry<Id>>(x: T, y: T) -> bool {
    ||| x.rank() < y.rank()
    ||| x.rank() == y.rank() && x.vertex().code() <= y.vertex().code()
}

/// A binary heap that hands out the entry of lowest rank first.
pub struct Heap<T> {
    items: Vec<T>,
}

impl<T> View for Heap<T> {
    type V = Multiset<T>;

    closed spec fn view(&self) -> Multiset<T> {
        self.items@.to_multiset()
    }
}

spec fn parent(i: int) -> int {
    (i - 1) / 2
}

/// Every item but that at `hole` ranks no lower than its parent, and the children of
/// `hole` rank no lower than the parent of `hole`.
spec fn sifting<Id: MapKey, T: QueueEntry<Id>>(items: Seq<T>, hole: int) -> bool {
    &&& forall|i: int|
        0 < i < items.len() && i != hole ==> comes_first(
            items[parent(i)],
            #[trigger] items[i],
        )
    &&& forall|i: int|
        0 < i < items.len() && parent(i) == hole && 0 < hole ==> comes_first(
            items[parent(hole)],
            #[trigger] items[i],
        )
}

/// Every item ranks no lower than its parent, except where the parent is `hole`.
spec fn sinking<Id: MapKey, T: QueueEntry<Id>>(items: Seq<T>, hole: int) -> bool {
    &&& forall|i: int|
        0 < i < items.len() && parent(i) != hole ==> comes_first(
            items[parent(i)],
            #[trigger] items[i],
        )
    &&& forall|i: int|
        0 < i < items.len() && parent(i) == hole && 0 < hole ==> comes_first(
            items[parent(hole)],
            #[trigger] items[i],
        )
}

spec fn ordered<Id: MapKey, T: QueueEntry<Id>>(items: Seq<T>) -> bool {
    forall|i: int|
        0 < i < items.len() ==> comes_first(
            items[parent(i)],
            #[trigger] items[i],
        )
}

proof fn lemma_root_is_lowest<Id: MapKey, T: QueueEntry<Id>>(items: Seq<T>, i: int)
    requires
        ordered::<Id, T>(items),
        0 <= i < items.len(),
    ensures
        comes_first(items[0], items[i]),
    decreases i,
{
    if i > 0 {
        lemma_root_is_lowest::<Id, T>(items, parent(i));
    }
}

proof fn lemma_swap_keeps_items<T>(items: Seq<T>, i: int, j: int)
    requires
        0 <= i < items.len(),
        0 <= j < items.len(),
    ensures
        items.update(i, items[j]).update(j, items[i]).to_multiset() =~= items.to_multiset(),
{
    vstd::seq_lib::to_multiset_update(items, i, items[j]);
    vstd::seq_lib::to_multiset_update(items.update(i, items[j]), j, items[i]);
    vstd::seq_lib::to_multiset_contains(items, items[i]);
    vstd::seq_lib::to_multiset_contains(items, items[j]);
}

impl<T> Heap<T> {
    /// Whether the items are in heap order.
    pub closed spec fn wf<Id: MapKey>(&self) -> bool where T: QueueEntry<Id> {
        ordered::<Id, T>(self.items@)
    }

    /// An empty heap.
    pub fn new<Id: MapKey>() -> (heap: Self) where T: QueueEntry<Id>
        ensures
            heap.wf::<Id>(),
            heap@ == Multiset::<T>::empty(),
    {
        let heap = Heap { items: Vec::new() };
        proof {
            vstd::seq_lib::to_multiset_len(heap.items@);
            assert(heap@.len() == 0);
        }
        heap
    }

    /// Adds an entry.
    pub fn push<Id: MapKey>(&mut self, item: T) where T: QueueEntry<Id>
        requires
            old(self).wf::<Id>(),
        ensures
            final(self).wf::<Id>(),
            final(self)@ == old(self)@.insert(item),
    {
        proof {
            vstd::seq_lib::to_multiset_build(self.items@, item);
        }
        let mut hole: usize = self.items.len();
        self.items.push(item);
        while hole > 0 && self.items[hole].precedes(&self.items[(hole - 1) / 2])
            invariant
                hole < self.items@.len(),
                sifting::<Id, T>(self.items@, hole as int),
                self.items@.to_multiset() == old(self)@.insert(item),
            ensures
                ordered::<Id, T>(self.items@),
                self.items@.to_multiset() == old(self)@.insert(item),
            decreases hole,
        {
            let up: usize = (hole - 1) / 2;
            proof {
                lemma_swap_keeps_items(self.items@, hole as int, up as int);
            }
            let lower: T = self.items[hole];
            self.items[hole] = self.items[up];
            self.items[up] = lower;
            hole = up;
        }
    }

    /// Takes the entry of lowest rank out.
    pub fn pop<Id: MapKey>(&mut self) -> (item: Option<T>) where T: QueueEntry<Id>
        requires
            old(self).wf::<Id>(),
        ensures
            final(self).wf::<Id>(),
            match item {
                None => old(self)@.len() == 0 && final(self)@ == old(self)@,
                Some(item) => {
                    &&& old(self)@.contains(item)
                    &&& final(self)@ == old(self)@.remove(item)
                    &&& forall|other: T| #[trigger]
                        old(self)@.contains(other) ==> comes_first(item, other)
                },
            },
    {
        proof {
            vstd::seq_lib::to_multiset_len(self.items@);
        }
        if self.items.len() == 0 {
            return None;
        }
        let item: T = self.items[0];
        proof {
            assert forall|other: T| #[trigger] old(self)@.contains(other) implies comes_first(
                item,
                other,
            ) by {
                vstd::seq_lib::to_multiset_contains(self.items@, other);
                let i = choose|i: int| 0 <= i < self.items@.len() && self.items@[i] == other;
                lemma_root_is_lowest::<Id, T>(self.items@, i);
            }
            vstd::seq_lib::to_multiset_contains(self.items@, item);
        }
        let last: usize = self.items.len() - 1;
        let ghost all = self.items@;
        self.items[0] = self.items[last];
        proof {
            vstd::seq_lib::to_multiset_update(all, 0, all[last as int]);
            vstd::seq_lib::to_multiset_remove(self.items@, last as int);
            vstd::seq_lib::to_multiset_contains(all, all[last as int]);
            assert(self.items@.remove(last as int) =~= self.items@.drop_last());
        }
        self.items.pop();
        proof {
            assert(self.items@ =~= all.update(0, all[last as int]).drop_last());
            assert(self@ =~= old(self)@.remove(item));
        }
        self.sink::<Id>();
        Some(item)
    }

    /// Restores the heap order after the root was replaced.
    fn sink<Id: MapKey>(&mut self) where T: QueueEntry<Id>
        requires
            sinking::<Id, T>(old(self).items@, 0),
        ensures
            final(self).wf::<Id>(),
            final(self)@ == old(self)@,
    {
        let size: usize = self.items.len();
        let mut hole: usize = 0;
        while hole < size / 2
            invariant
                size == self.items@.len(),
                hole < size || size == 0,
                sinking::<Id, T>(self.items@, hole as int),
                self.items@.to_multiset() == old(self)@,
            decreases size - hole,
        {
            let left: usize = 2 * hole + 1;
            let mut down: usize = left;
            if left + 1 < size && self.items[left + 1].precedes(&self.items[left]) {
                down = left + 1;
            }
            if !self.items[down].precedes(&self.items[hole]) {
                assert(ordered::<Id, T>(self.items@)) by {
                    assert forall|i: int| 0 < i < self.items@.len() implies comes_first(
                        self.items@[parent(i)],
                        #[trigger] self.items@[i],
                    ) by {
                        if parent(i) == hole {
                            assert(i == left || i == left + 1);
                        }
                    }
                }
                return ;
            }
            proof {
                lemma_swap_keeps_items(self.items@, hole as int, down as int);
            }
            let ghost before = self.items@;
            let upper: T = self.items[hole];
            self.items[hole] = self.items[down];
            self.items[down] = upper;
            assert(sinking::<Id, T>(self.items@, down as int)) by {
                assert forall|i: int| 0 < i < self.items@.len() && parent(i) != down implies comes_first(
                    self.items@[parent(i)],
                    #[trigger] self.items@[i],
                ) by {
                    if parent(i) == hole {
                        assert(i == left || i == left + 1);
                    } else {
                        assert(comes_first(before[parent(i)], before[i]));
                    }
                }
                assert forall|i: int| 0 < i < self.items@.len() && parent(i) == down && 0 < down implies comes_first(
                    self.items@[parent(down as int)],
                    #[trigger] self.items@[i],
                ) by {
                    assert(comes_first(before[parent(i)], before[i]));
                }
            }
            hole = down;
        }
    }
}

} // verus!
