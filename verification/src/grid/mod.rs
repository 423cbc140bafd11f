//! Searches on the grid itself.

mod a_star;
mod dijkstra;
mod explore;

pub(crate) use a_star::a_star_search;
pub(crate) use dijkstra::dijkstra_search;

use std::cmp::Ordering;

use vstd::prelude::*;
use vstd::std_specs::cmp::PartialOrdSpecImpl;

use crate::heap::QueueEntry;
use crate::key_map::MapKey;
use crate::Cost;

verus! {

/// The order of two costs, largest first.
pub open spec fn reversed_order(a: Cost, b: Cost) -> Ordering {
    if b < a {
        Ordering::Less
    } else if b == a {
        Ordering::Equal
    } else {
        Ordering::Greater
    }
}

/// A vertex in the queue of an A* search: its id, the cost of reaching it, and that
/// cost plus the estimated rest of the way.
///
/// Elements are ordered by the last field alone, smallest last, so that a queue which
/// hands out its greatest element hands out the most promising one.
#[derive(Clone, Copy, PartialEq, Eq)]
pub struct HeuristicElement<Id>(pub Id, pub Cost, pub Cost);

impl<Id: Eq> PartialOrdSpecImpl for HeuristicElement<Id> {
    open spec fn obeys_partial_cmp_spec() -> bool {
        true
    }

    open spec fn partial_cmp_spec(&self, rhs: &Self) -> Option<Ordering> {
        Some(reversed_order(self.2, rhs.2))
    }
}

impl<Id: Eq> PartialOrd for HeuristicElement<Id> {
    fn partial_cmp(&self, rhs: &Self) -> (order: Option<Ordering>) {
        Some(self.cmp(rhs))
    }
}

impl<Id: Eq> HeuristicElement<Id> {
    /// Compares by the estimated total cost; the smaller one is the greater element.
    pub fn cmp(&self, rhs: &Self) -> (order: Ordering)
        ensures
            order == reversed_order(self.2, rhs.2),
    {
        rhs.2.cmp(&self.2)
    }
}

/// A vertex in the queue of a Dijkstra search: its id and the cost of reaching it.
///
/// Elements are ordered by the cost alone, smallest last.
#[derive(Clone, Copy, PartialEq, Eq)]
pub struct Element<Id>(pub Id, pub Cost);

impl<Id: Eq> PartialOrdSpecImpl for Element<Id> {
    open spec fn obeys_partial_cmp_spec() -> bool {
        true
    }

    open spec fn partial_cmp_spec(&self, rhs: &Self) -> Option<Ordering> {
        Some(reversed_order(self.1, rhs.1))
    }
}

impl<Id: Eq> PartialOrd for Element<Id> {
    fn partial_cmp(&self, rhs: &Self) -> (order: Option<Ordering>) {
        Some(self.cmp(rhs))
    }
}

impl<Id: Eq> Element<Id> {
    /// Compares by cost; the cheaper one is the greater element.
    pub fn cmp(&self, rhs: &Self) -> (order: Ordering)
        ensures
            order == reversed_order(self.1, rhs.1),
    {
        rhs.1.cmp(&self.1)
    }
}

impl<Id: Copy + Eq + MapKey> QueueEntry<Id> for HeuristicElement<Id> {
    open spec fn entry(id: Id, cost: Cost, estimate: Cost) -> Self {
        HeuristicElement(
            id,
            cost,
            if cost + estimate <= usize::MAX {
                (cost + estimate) as Cost
            } else {
                usize::MAX
            },
        )
    }

    open spec fn vertex(&self) -> Id {
        self.0
    }

    open spec fn cost(&self) -> Cost {
        self.1
    }

    open spec fn rank(&self) -> Cost {
        self.2
    }

    proof fn lemma_entry(id: Id, cost: Cost, estimate: Cost) {
    }

    proof fn lemma_rank(id: Id, low: Cost, high: Cost, estimate: Cost) {
    }

    fn new_entry(id: Id, cost: Cost, estimate: Cost) -> (entry: Self) {
        HeuristicElement(id, cost, cost.saturating_add(estimate))
    }

    fn into_vertex(self) -> (id: Id) {
        self.0
    }

    fn precedes(&self, other: &Self) -> (first: bool) {
        match self.cmp(other) {
            Ordering::Greater => true,
            Ordering::Equal => self.0.to_code() < other.0.to_code(),
            Ordering::Less => false,
        }
    }
}

impl<Id: Copy + Eq + MapKey> QueueEntry<Id> for Element<Id> {
    open spec fn entry(id: Id, cost: Cost, estimate: Cost) -> Self {
        Element(id, cost)
    }

    open spec fn vertex(&self) -> Id {
        self.0
    }

    open spec fn cost(&self) -> Cost {
        self.1
    }

    open spec fn rank(&self) -> Cost {
        self.1
    }

    proof fn lemma_entry(id: Id, cost: Cost, estimate: Cost) {
    }

    proof fn lemma_rank(id: Id, low: Cost, high: Cost, estimate: Cost) {
    }

    fn new_entry(id: Id, cost: Cost, estimate: Cost) -> (entry: Self) {
        Element(id, cost)
    }

    fn into_vertex(self) -> (id: Id) {
        self.0
    }

    fn precedes(&self, other: &Self) -> (first: bool) {
        match self.cmp(other) {
            Ordering::Greater => true,
            Ordering::Equal => self.0.to_code() < other.0.to_code(),
            Ordering::Less => false,
        }
    }
}

} // verus!
