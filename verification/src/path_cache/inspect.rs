//! Looking at the nodes of a cache.

use std::marker::PhantomData;

use vstd::prelude::*;

use super::links::Nodes;
use super::PathCache;
use crate::graph::{Node, NodeList, NodeView};
use crate::neighbors::Neighborhood;
use crate::{Cost, NodeID, Point};

verus! {

/// Gives access to the nodes of a [`PathCache`], for debugging and visualizing it.
///
/// The nodes are handed out one by one, in the order of their numbers.
#[derive(Debug)]
pub struct CacheInspector<'a, N> {
    nodes: &'a NodeList,
    ids: Vec<NodeID>,
    index: usize,
    neighborhood: PhantomData<N>,
}

impl<'a, N: Neighborhood> CacheInspector<'a, N> {
    /// The nodes of the cache.
    pub closed spec fn graph(&self) -> Nodes {
        self.nodes@
    }

    /// The nodes can be looked up.
    pub closed spec fn is_intact(&self) -> bool {
        self.nodes.wf()
    }

    /// The numbers of the nodes, in the order in which they are handed out.
    pub closed spec fn ids(&self) -> Seq<NodeID> {
        self.ids@
    }

    /// How many nodes have been handed out.
    pub closed spec fn position(&self) -> int {
        self.index as int
    }

    /// Each node of the cache is handed out once, in the order of the numbers.
    pub open spec fn wf(&self) -> bool {
        &&& self.is_intact()
        &&& 0 <= self.position() <= self.ids().len()
        &&& forall|id: NodeID| #[trigger]
            self.graph().contains_key(id) <==> self.ids().contains(id)
        &&& forall|i: int, j: int|
            0 <= i < j < self.ids().len() ==> self.ids()[i] < self.ids()[j]
    }

    /// Creates an inspector.
    ///
    /// Same as [`inspect_nodes`](PathCache::inspect_nodes).
    pub fn new(src: &'a PathCache<N>) -> (inspector: Self)
        requires
            src.wf(),
        ensures
            inspector.wf(),
            inspector.graph() == src.graph(),
            inspector.position() == 0,
    {
        CacheInspector {
            nodes: &src.nodes,
            ids: src.nodes.keys(),
            index: 0,
            neighborhood: PhantomData,
        }
    }

    /// Gives access to the node of the given number.
    pub fn get_node(&self, id: NodeID) -> (node: NodeInspector<'a, N>)
        requires
            self.wf(),
            self.graph().contains_key(id),
        ensures
            node.wf(),
            node.graph() == self.graph(),
            node.number() == id,
    {
        NodeInspector::new(self.nodes, id)
    }

    /// Hands out the next node.
    pub fn next(&mut self) -> (node: Option<NodeInspector<'a, N>>)
        requires
            old(self).wf(),
        ensures
            final(self).wf(),
            final(self).graph() == old(self).graph(),
            final(self).ids() == old(self).ids(),
            match node {
                Some(node) => {
                    &&& old(self).position() < old(self).ids().len()
                    &&& final(self).position() == old(self).position() + 1
                    &&& node.wf()
                    &&& node.graph() == old(self).graph()
                    &&& node.number() == old(self).ids()[old(self).position()]
                },
                None => {
                    &&& old(self).position() == old(self).ids().len()
                    &&& final(self).position() == old(self).position()
                },
            },
    {
        if self.index < self.ids.len() {
            let id: NodeID = self.ids[self.index];
            assert(self.ids().contains(id));
            assert(self.graph().contains_key(id));
            self.index = self.index + 1;
            assert(self.graph() == old(self).graph());
            Some(NodeInspector::new(self.nodes, id))
        } else {
            None
        }
    }
}

/// Gives access to a node of a [`PathCache`].
#[derive(Debug)]
pub struct NodeInspector<'a, N> {
    nodes: &'a NodeList,
    node: &'a Node,
    neighborhood: PhantomData<N>,
}

impl<'a, N> Copy for NodeInspector<'a, N> {

}

impl<'a, N> Clone for NodeInspector<'a, N> {
    fn clone(&self) -> (copy: Self)
        ensures
            copy == *self,
    {
        *self
    }
}

impl<'a, N: Neighborhood> NodeInspector<'a, N> {
    /// The nodes of the cache.
    pub closed spec fn graph(&self) -> Nodes {
        self.nodes@
    }

    /// The number of the node.
    pub closed spec fn number(&self) -> NodeID {
        self.node.id
    }

    /// The node is one of the cache.
    pub closed spec fn wf(&self) -> bool {
        &&& self.nodes.wf()
        &&& self.nodes@.contains_key(self.node.id)
        &&& self.nodes@[self.node.id] == self.node@
        &&& self.node.edges.wf()
    }

    /// What there is to know of the node.
    pub open spec fn node_view(&self) -> NodeView {
        self.graph()[self.number()]
    }

    /// The node is one of the cache.
    pub proof fn lemma_node(&self)
        requires
            self.wf(),
        ensures
            self.graph().contains_key(self.number()),
    {
    }

    fn new(nodes: &'a NodeList, id: NodeID) -> (node: Self)
        requires
            nodes.wf(),
            nodes@.contains_key(id),
        ensures
            node.wf(),
            node.graph() == nodes@,
            node.number() == id,
    {
        NodeInspector { nodes, node: nodes.get(id), neighborhood: PhantomData }
    }

    /// The position of the node on the grid.
    pub fn pos(&self) -> (pos: Point)
        requires
            self.wf(),
        ensures
            pos == self.node_view().pos,
    {
        self.node.pos
    }

    /// The number of the node.
    ///
    /// No two nodes have the same number at the same time, but the number of a node that was
    /// removed may be used again.
    pub fn id(&self) -> (id: NodeID)
        ensures
            id == self.number(),
    {
        self.node.id
    }

    /// The nodes that the node is connected to, each with the cost of the path to it.
    pub fn connected(&self) -> (nodes: Vec<(NodeInspector<'a, N>, Cost)>)
        requires
            self.wf(),
            forall|id: NodeID| #[trigger]
                self.node_view().edges.contains_key(id) ==> self.graph().contains_key(id),
        ensures
            forall|i: int|
                0 <= i < nodes@.len() ==> {
                    &&& (#[trigger] nodes@[i]).0.wf()
                    &&& nodes@[i].0.graph() == self.graph()
                    &&& self.node_view().edges.contains_key(nodes@[i].0.number())
                    &&& nodes@[i].1 == self.node_view().edges[nodes@[i].0.number()].total()
                },
            forall|id: NodeID| #[trigger]
                self.node_view().edges.contains_key(id) ==> exists|i: int|
                    0 <= i < nodes@.len() && (#[trigger] nodes@[i]).0.number() == id,
            forall|i: int, j: int|
                0 <= i < j < nodes@.len() ==> (#[trigger] nodes@[i]).0.number() != (
                #[trigger] nodes@[j]).0.number(),
    {
        let mut nodes: Vec<(NodeInspector<'a, N>, Cost)> = Vec::new();
        let ghost edges = self.node.edges@;
        let ghost entries = self.node.edges.entries();
        proof {
            self.node.edges.lemma_entries();
            assert(self.node_view().edges == edges);
        }
        let count: usize = self.node.edges.len();
        for i in 0..count
            invariant
                self.wf(),
                entries == self.node.edges.entries(),
                count == entries.len(),
                edges == self.node.edges@,
                edges == self.node_view().edges,
                forall|k: int|
                    0 <= k < entries.len() ==> {
                        &&& edges.contains_key((#[trigger] entries[k]).0)
                        &&& edges[entries[k].0] == entries[k].1
                        &&& self.graph().contains_key(entries[k].0)
                    },
                nodes@.len() == i,
                forall|k: int|
                    0 <= k < i ==> {
                        &&& (#[trigger] nodes@[k]).0.wf()
                        &&& nodes@[k].0.graph() == self.graph()
                        &&& nodes@[k].0.number() == entries[k].0
                        &&& nodes@[k].1 == entries[k].1.total()
                    },
        {
            let entry = self.node.edges.entry_at(i);
            assert(*entry == entries[i as int]);
            nodes.push((NodeInspector::new(self.nodes, entry.0), entry.1.cost()));
        }
        proof {
            assert forall|id: NodeID| #[trigger] self.node_view().edges.contains_key(
                id,
            ) implies exists|i: int|
                0 <= i < nodes@.len() && (#[trigger] nodes@[i]).0.number() == id by {
                let k = choose|k: int|
                    0 <= k < entries.len() && #[trigger] entries[k] == (id, edges[id]);
                assert(nodes@[k].0.number() == id);
            }
            assert forall|i: int, j: int| 0 <= i < j < nodes@.len() implies (
            #[trigger] nodes@[i]).0.number() != (#[trigger] nodes@[j]).0.number() by {
                assert(entries[i].0 != entries[j].0);
            }
        }
        nodes
    }
}

impl<N: Neighborhood> PathCache<N> {
    /// Gives access to the nodes and how they are connected, for debugging and visualizing.
    pub fn inspect_nodes(&self) -> (inspector: CacheInspector<'_, N>)
        requires
            self.wf(),
        ensures
            inspector.wf(),
            inspector.graph() == self.graph(),
            inspector.position() == 0,
    {
        CacheInspector::new(self)
    }
}

} // verus!
