//! The nodes and their connections.

use vstd::prelude::*;

use crate::key_map::{NodeIDMap, NodeIDSet, PointMap};
use crate::path::PathSegment;
use crate::{Cost, NodeID, Point};

verus! {

/// A node: an entrance of a chunk, and its connections to other nodes.
#[derive(Debug)]
pub struct Node {
    /// The number of the node.
    pub id: NodeID,
    /// The position on the grid.
    pub pos: Point,
    /// The cost of walking over the tile.
    pub walk_cost: Cost,
    /// The paths to the nodes that it is connected to.
    pub edges: NodeIDMap<PathSegment>,
}

/// What the specifications see of a node.
#[verifier::ext_equal]
pub struct NodeView {
    pub pos: Point,
    pub walk_cost: Cost,
    pub edges: Map<NodeID, PathSegment>,
}

impl View for Node {
    type V = NodeView;

    open spec fn view(&self) -> NodeView {
        NodeView { pos: self.pos, walk_cost: self.walk_cost, edges: self.edges@ }
    }
}

impl NodeView {
    /// The node with a connection added or replaced.
    pub open spec fn with_edge(self, id: NodeID, path: PathSegment) -> NodeView {
        NodeView { edges: self.edges.insert(id, path), ..self }
    }

    /// The node without its connection to another one.
    pub open spec fn without_edge(self, id: NodeID) -> NodeView {
        NodeView { edges: self.edges.remove(id), ..self }
    }

    /// The node without connections.
    pub open spec fn without_edges(self) -> NodeView {
        NodeView { edges: Map::empty(), ..self }
    }
}

impl Clone for Node {
    fn clone(&self) -> (copy: Self)
        ensures
            copy.id == self.id,
            copy.edges.wf(),
            self.edges.wf() ==> is_similar(self@, copy@),
    {
        Node {
            id: self.id,
            pos: self.pos,
            walk_cost: self.walk_cost,
            edges: self.edges.clone(),
        }
    }
}

/// The nodes have the same connections, over paths of the same points and costs.
pub open spec fn is_similar(a: NodeView, b: NodeView) -> bool {
    &&& b.pos == a.pos
    &&& b.walk_cost == a.walk_cost
    &&& b.edges.dom() == a.edges.dom()
    &&& forall|id: NodeID| #[trigger]
        a.edges.contains_key(id) ==> {
            &&& b.edges[id].total() == a.edges[id].total()
            &&& b.edges[id] is Known == a.edges[id] is Known
            &&& forall|s: Seq<Point>| #[trigger]
                a.edges[id].matches(s) ==> b.edges[id].matches(s)
        }
}

/// The nodes of the cache. No two of them have the same position.
#[derive(Debug)]
pub struct NodeList {
    slots: Vec<Option<Node>>,
    free: Vec<NodeID>,
    pos_map: PointMap<NodeID>,
}

impl View for NodeList {
    type V = Map<NodeID, NodeView>;

    closed spec fn view(&self) -> Map<NodeID, NodeView> {
        Map::new(
            |id: NodeID| id < self.slots@.len() && self.slots@[id as int] is Some,
            |id: NodeID| self.slots@[id as int]->0@,
        )
    }
}

impl NodeList {
    /// Each node lies in the slot of its number, and the positions are all known.
    pub closed spec fn wf(&self) -> bool {
        &&& self.pos_map.wf()
        &&& forall|i: int|
            0 <= i < self.slots@.len() && (#[trigger] self.slots@[i]) is Some ==> {
                let node = self.slots@[i]->0;
                &&& node.id == i
                &&& node.edges.wf()
                &&& self.pos_map@.contains_key(node.pos)
                &&& self.pos_map@[node.pos] == i
            }
        &&& forall|p: Point| #[trigger]
            self.pos_map@.contains_key(p) ==> {
                let i = self.pos_map@[p] as int;
                &&& i < self.slots@.len()
                &&& self.slots@[i] is Some
                &&& self.slots@[i]->0.pos == p
            }
        &&& self.free@.no_duplicates()
        &&& forall|i: int|
            0 <= i < self.free@.len() ==> (#[trigger] self.free@[i]) < self.slots@.len()
                && self.slots@[self.free@[i] as int] is None
    }

    /// Nodes at the same position are the same.
    pub proof fn lemma_positions(&self)
        requires
            self.wf(),
        ensures
            forall|a: NodeID, b: NodeID| #[trigger]
                self@.contains_key(a) && #[trigger] self@.contains_key(b) && self@[a].pos
                    == self@[b].pos ==> a == b,
    {
    }

    /// There are finitely many nodes.
    pub proof fn lemma_finite(&self)
        ensures
            self@.dom().finite(),
    {
        let all = vstd::set_lib::set_int_range(0, self.slots@.len() as int).map(|i: int| i as NodeID);
        vstd::set_lib::lemma_int_range(0, self.slots@.len() as int);
        vstd::set_lib::set_int_range(0, self.slots@.len() as int).lemma_map_finite(
            |i: int| i as NodeID,
        );
        assert forall|id: NodeID| self@.dom().contains(id) implies all.contains(id) by {
            assert(vstd::set_lib::set_int_range(0, self.slots@.len() as int).contains(id as int));
        }
        vstd::set_lib::lemma_len_subset(self@.dom(), all);
    }

    /// A list without nodes.
    pub fn new() -> (list: Self)
        ensures
            list.wf(),
            list@ == Map::<NodeID, NodeView>::empty(),
    {
        let list = NodeList { slots: Vec::new(), free: Vec::new(), pos_map: PointMap::new() };
        assert(list@ =~= Map::<NodeID, NodeView>::empty());
        list
    }

    /// The node at a position.
    pub fn id_at(&self, pos: Point) -> (id: Option<NodeID>)
        requires
            self.wf(),
        ensures
            match id {
                Some(id) => self@.contains_key(id) && self@[id].pos == pos,
                None => forall|id: NodeID| #[trigger] self@.contains_key(id) ==> self@[id].pos != pos,
            },
    {
        match self.pos_map.get(&pos) {
            Some(id) => Some(*id),
            None => None,
        }
    }

    /// The node of a number.
    pub fn get(&self, id: NodeID) -> (node: &Node)
        requires
            self.wf(),
            self@.contains_key(id),
        ensures
            node@ == self@[id],
            node.id == id,
            node.edges.wf(),
    {
        self.slots[id].as_ref().unwrap()
    }

    /// Adds a node without connections.
    pub fn add_node(&mut self, pos: Point, walk_cost: Cost) -> (id: NodeID)
        requires
            old(self).wf(),
            forall|id: NodeID| #[trigger] old(self)@.contains_key(id) ==> old(self)@[id].pos != pos,
        ensures
            final(self).wf(),
            !old(self)@.contains_key(id),
            final(self)@ == old(self)@.insert(
                id,
                NodeView { pos, walk_cost, edges: Map::empty() },
            ),
    {
        let ghost before = *self;
        let id: NodeID = match self.free.pop() {
            Some(id) => id,
            None => {
                let id: NodeID = self.slots.len();
                self.slots.push(None);
                id
            },
        };
        self.slots[id] = Some(Node { id, pos, walk_cost, edges: NodeIDMap::new() });
        self.pos_map.insert(pos, id);
        proof {
            assert(self@ =~= before@.insert(id, NodeView { pos, walk_cost, edges: Map::empty() }));
            assert(!before.pos_map@.contains_key(pos)) by {
                if before.pos_map@.contains_key(pos) {
                    assert(before@.contains_key(before.pos_map@[pos]));
                }
            }
        }
        id
    }

    /// Adds a connection to a node, or replaces it.
    fn set_edge(&mut self, src: NodeID, target: NodeID, path: PathSegment)
        requires
            old(self).wf(),
            old(self)@.contains_key(src),
        ensures
            final(self).wf(),
            final(self)@ == old(self)@.insert(src, old(self)@[src].with_edge(target, path)),
    {
        let ghost before = *self;
        match &mut self.slots[src] {
            Some(node) => {
                node.edges.insert(target, path);
            },
            None => {},
        }
        proof {
            assert(self@ =~= before@.insert(src, before@[src].with_edge(target, path)));
        }
    }

    /// Removes a connection from a node.
    fn unset_edge(&mut self, src: NodeID, target: NodeID)
        requires
            old(self).wf(),
            old(self)@.contains_key(src),
        ensures
            final(self).wf(),
            final(self)@ == old(self)@.insert(src, old(self)@[src].without_edge(target)),
    {
        let ghost before = *self;
        match &mut self.slots[src] {
            Some(node) => {
                node.edges.remove(&target);
            },
            None => {},
        }
        proof {
            assert(self@ =~= before@.insert(src, before@[src].without_edge(target)));
        }
    }

    /// Removes all connections from a node.
    pub fn clear_edges(&mut self, id: NodeID)
        requires
            old(self).wf(),
            old(self)@.contains_key(id),
        ensures
            final(self).wf(),
            final(self)@ == old(self)@.insert(id, old(self)@[id].without_edges()),
    {
        let ghost before = *self;
        match &mut self.slots[id] {
            Some(node) => {
                node.edges.clear();
            },
            None => {},
        }
        proof {
            assert(self@ =~= before@.insert(id, before@[id].without_edges()));
        }
    }

    /// Connects two nodes by a path that can be followed both ways.
    pub fn add_edge(&mut self, src: NodeID, target: NodeID, path: PathSegment)
        requires
            old(self).wf(),
            old(self)@.contains_key(src),
            old(self)@.contains_key(target),
            src != target,
            old(self)@[src].walk_cost <= path.total(),
            path.total() - old(self)@[src].walk_cost + old(self)@[target].walk_cost <= usize::MAX,
        ensures
            final(self).wf(),
            exists|back: PathSegment|
                {
                    &&& #[trigger] is_way_back(
                        path,
                        back,
                        old(self)@[src].walk_cost,
                        old(self)@[target].walk_cost,
                    )
                    &&& final(self)@ == old(self)@.insert(
                        src,
                        old(self)@[src].with_edge(target, path),
                    ).insert(target, old(self)@[target].with_edge(src, back))
                },
    {
        let src_cost: Cost = self.get(src).walk_cost;
        let target_cost: Cost = self.get(target).walk_cost;
        let back: PathSegment = path.reversed(src_cost, target_cost);
        assert(is_way_back(path, back, src_cost, target_cost));
        self.set_edge(src, target, path);
        self.set_edge(target, src, back);
    }

    /// Removes a node, and with it the connections of other nodes to it.
    pub fn remove_node(&mut self, id: NodeID)
        requires
            old(self).wf(),
            old(self)@.contains_key(id),
            forall|k: NodeID| #[trigger]
                old(self)@[id].edges.contains_key(k) ==> old(self)@.contains_key(k) && k != id,
            forall|k: NodeID| #[trigger]
                old(self)@.contains_key(k) && old(self)@[k].edges.contains_key(id) ==> old(
                    self,
                )@[id].edges.contains_key(k),
        ensures
            final(self).wf(),
            final(self)@ == without_node(old(self)@, id),
    {
        let ghost before = *self;
        let slot: Option<Node> = self.slots[id].take();
        let removed: Node = slot.unwrap();
        self.pos_map.remove(&removed.pos);
        self.free.push(id);
        proof {
            assert(self@ =~= before@.remove(id));
            removed.edges.lemma_entries();
        }
        let ghost entries = removed.edges.entries();
        let count: usize = removed.edges.len();
        assert forall|j: int| 0 <= j < entries.len() implies before@.contains_key(
            (#[trigger] entries[j]).0,
        ) && entries[j].0 != id by {
            assert(before@[id].edges.contains_key(entries[j].0));
        }
        for i in 0..count
            invariant
                self.wf(),
                count == entries.len(),
                entries == removed.edges.entries(),
                removed.edges@ == before@[id].edges,
                forall|j: int|
                    0 <= j < entries.len() ==> before@.contains_key((#[trigger] entries[j]).0)
                        && entries[j].0 != id,
                forall|k: NodeID| #[trigger]
                    self@.contains_key(k) <==> before@.contains_key(k) && k != id,
                forall|k: NodeID| #[trigger]
                    self@.contains_key(k) ==> self@[k] == if exists|j: int|
                        0 <= j < i && (#[trigger] entries[j]).0 == k {
                        before@[k].without_edge(id)
                    } else {
                        before@[k]
                    },
        {
            let other: NodeID = removed.edges.entry_at(i).0;
            let ghost previous = self@;
            self.unset_edge(other, id);
            proof {
                assert forall|k: NodeID| #[trigger] self@.contains_key(k) implies self@[k]
                    == if exists|j: int| 0 <= j < i + 1 && (#[trigger] entries[j]).0 == k {
                    before@[k].without_edge(id)
                } else {
                    before@[k]
                } by {
                    assert(previous.contains_key(k));
                    if k == other {
                        assert(entries[i as int].0 == k);
                        assert(self@[k] =~= before@[k].without_edge(id));
                    } else if exists|j: int| 0 <= j < i + 1 && (#[trigger] entries[j]).0 == k {
                        let j = choose|j: int| 0 <= j < i + 1 && (#[trigger] entries[j]).0 == k;
                        assert(0 <= j < i);
                    }
                }
            }
        }
        proof {
            assert forall|k: NodeID| #[trigger] self@.contains_key(k) implies self@[k]
                == before@[k].without_edge(id) by {
                if removed.edges@.contains_key(k) {
                    let j = choose|j: int|
                        0 <= j < entries.len() && #[trigger] entries[j] == (k, removed.edges@[k]);
                    assert(entries[j].0 == k);
                } else {
                    assert(before@.contains_key(k));
                    assert(before@[k] =~= before@[k].without_edge(id));
                }
            }
            assert(self@ =~= without_node(before@, id));
        }
    }

    /// The numbers of all nodes, in ascending order.
    pub fn keys(&self) -> (keys: Vec<NodeID>)
        ensures
            forall|id: NodeID| #[trigger] self@.contains_key(id) <==> keys@.contains(id),
            forall|i: int, j: int| 0 <= i < j < keys@.len() ==> keys@[i] < keys@[j],
    {
        let mut keys: Vec<NodeID> = Vec::new();
        for id in 0..self.slots.len()
            invariant
                forall|k: NodeID| #[trigger]
                    keys@.contains(k) <==> k < id && self.slots@[k as int] is Some,
                forall|i: int| 0 <= i < keys@.len() ==> #[trigger] keys@[i] < id,
                forall|i: int, j: int| 0 <= i < j < keys@.len() ==> keys@[i] < keys@[j],
        {
            let ghost before = keys@;
            if self.slots[id].is_some() {
                keys.push(id);
                proof {
                    assert forall|k: NodeID| #[trigger] keys@.contains(k) <==> k < id + 1
                        && self.slots@[k as int] is Some by {
                        if before.contains(k) {
                            let i = choose|i: int| 0 <= i < before.len() && before[i] == k;
                            assert(keys@[i] == k);
                        }
                        if k == id {
                            assert(keys@[before.len() as int] == k);
                        }
                        if keys@.contains(k) && k != id {
                            let i = choose|i: int| 0 <= i < keys@.len() && keys@[i] == k;
                            assert(before[i] == k);
                        }
                    }
                }
            }
        }
        keys
    }

    /// Takes over the nodes of another list, under new numbers.
    pub fn absorb(&mut self, other: NodeList) -> (added: (NodeIDSet, Ghost<NodeID>))
        requires
            old(self).wf(),
            other.wf(),
            forall|a: NodeID, b: NodeID| #[trigger]
                old(self)@.contains_key(a) && #[trigger] other@.contains_key(b) ==> old(self)@[a].pos
                    != other@[b].pos,
            forall|a: NodeID, b: NodeID|
                other@.contains_key(a) && #[trigger] other@[a].edges.contains_key(b)
                    ==> other@.contains_key(b),
        ensures
            final(self).wf(),
            is_absorbed(old(self)@, other@, final(self)@, added.1@),
            added.0.wf(),
            forall|id: NodeID| #[trigger]
                added.0@.contains_key(id) <==> id >= added.1@ && other@.contains_key(
                    (id - added.1@) as NodeID,
                ),
    {
        let ghost before = *self;
        let ghost absorbed = other@;
        let base: usize = self.slots.len();
        let size: usize = other.slots.len();
        for i in 0..size
            invariant
                self.wf(),
                self@ == before@,
                self.free == before.free,
                self.slots@.len() == base + i,
                base == before.slots@.len(),
        {
            self.slots.push(None);
            assert(self@ =~= before@);
        }
        assert forall|i: int| 0 <= i < self.free@.len() implies (#[trigger] self.free@[i]) < base by {
            assert(self.free@[i] == before.free@[i]);
        }
        assert(self.slots.len() == base + size);
        assert(base + size <= usize::MAX);
        let mut other_slots: Vec<Option<Node>> = other.slots;
        let mut ids: NodeIDSet = NodeIDSet::new();
        let mut left: usize = size;
        while left > 0
            invariant
                left <= size,
                base + size <= usize::MAX,
                base == before.slots@.len(),
                size == other.slots@.len(),
                absorbed == other@,
                self.slots@.len() == base + size,
                other_slots@ =~= other.slots@.take(left as int),
                before.wf(),
                other.wf(),
                forall|a: NodeID, b: NodeID| #[trigger]
                    before@.contains_key(a) && #[trigger] absorbed.contains_key(b)
                        ==> before@[a].pos != absorbed[b].pos,
                forall|a: NodeID, b: NodeID|
                    absorbed.contains_key(a) && #[trigger] absorbed[a].edges.contains_key(b)
                        ==> absorbed.contains_key(b),
                self.wf(),
                forall|i: int| 0 <= i < self.free@.len() ==> (#[trigger] self.free@[i]) < base,
                ids.wf(),
                forall|id: NodeID| #[trigger]
                    self@.contains_key(id) <==> before@.contains_key(id) || (id >= base + left
                        && absorbed.contains_key((id - base) as NodeID)),
                forall|id: NodeID| #[trigger] before@.contains_key(id) ==> self@[id] == before@[id],
                forall|id: NodeID| #[trigger]
                    self@.contains_key(id) && id >= base + left ==> self@[id] == shifted(
                        absorbed[(id - base) as NodeID],
                        base,
                    ),
                forall|id: NodeID| #[trigger]
                    ids@.contains_key(id) <==> id >= base + left && absorbed.contains_key(
                        (id - base) as NodeID,
                    ),
            decreases left,
        {
            left = left - 1;
            let slot: Option<Node> = other_slots.pop().unwrap();
            let ghost previous = *self;
            let id: NodeID = base + left;
            assert(slot == other.slots@[left as int]);
            if let Some(node) = slot {
                assert(absorbed.contains_key(left));
                assert(absorbed[left] == node@);
                assert forall|k: NodeID| #[trigger] node.edges@.contains_key(k) implies k < size by {
                    assert(absorbed[left].edges.contains_key(k));
                    assert(absorbed.contains_key(k));
                }
                let edges: NodeIDMap<PathSegment> = shift_edges(node.edges, base, size);
                let pos: Point = node.pos;
                proof {
                    assert(!self@.contains_key(id));
                    assert(!self.pos_map@.contains_key(pos)) by {
                        if self.pos_map@.contains_key(pos) {
                            let k = self.pos_map@[pos];
                            assert(self@.contains_key(k));
                            if before@.contains_key(k) {
                                assert(before@[k].pos != absorbed[left].pos);
                            } else {
                                other.lemma_positions();
                                assert(absorbed.contains_key((k - base) as NodeID));
                            }
                        }
                    }
                }
                let walk_cost: Cost = node.walk_cost;
                self.slots[id] = Some(Node { id, pos, walk_cost, edges });
                self.pos_map.insert(pos, id);
                ids.insert(id, ());
                proof {
                    assert(self@ =~= previous@.insert(id, shifted(absorbed[left], base)));
                    assert(self.wf()) by {
                        assert forall|i: int| 0 <= i < self.free@.len() implies (
                        #[trigger] self.free@[i]) < self.slots@.len() && self.slots@[self.free@[i] as int] is None by {
                            assert(self.free@[i] == previous.free@[i]);
                        }
                    }
                }
            } else {
                assert(!absorbed.contains_key(left));
            }
            proof {
                assert forall|k: NodeID| #[trigger] self@.contains_key(k) && k >= base + left implies self@[k]
                    == shifted(absorbed[(k - base) as NodeID], base) by {
                    if k != id {
                        assert(previous@.contains_key(k));
                    }
                }
            }
        }
        (ids, Ghost(base))
    }
}

/// `back` leads where `path` comes from, at the cost of the last tile in place of the first.
pub open spec fn is_way_back(
    path: PathSegment,
    back: PathSegment,
    start_cost: Cost,
    end_cost: Cost,
) -> bool {
    &&& back.total() == path.total() - start_cost + end_cost
    &&& back is Known == path is Known
    &&& forall|s: Seq<Point>| #[trigger] path.matches(s) ==> back.matches(s.reverse())
}

/// The nodes without one of them, and without the connections to it.
pub open spec fn without_node(nodes: Map<NodeID, NodeView>, id: NodeID) -> Map<NodeID, NodeView> {
    Map::new(
        |k: NodeID| nodes.contains_key(k) && k != id,
        |k: NodeID| nodes[k].without_edge(id),
    )
}

/// The node with `base` added to the numbers of the nodes that it is connected to.
pub open spec fn shifted(node: NodeView, base: NodeID) -> NodeView {
    NodeView {
        edges: Map::new(
            |k: NodeID| k >= base && node.edges.contains_key((k - base) as NodeID),
            |k: NodeID| node.edges[(k - base) as NodeID],
        ),
        ..node
    }
}

/// The nodes of `own` and those of `other`, the latter under numbers that are `base` higher.
pub open spec fn is_absorbed(
    own: Map<NodeID, NodeView>,
    other: Map<NodeID, NodeView>,
    all: Map<NodeID, NodeView>,
    base: NodeID,
) -> bool {
    &&& forall|id: NodeID| #[trigger] own.contains_key(id) ==> id < base
    &&& forall|id: NodeID| #[trigger] other.contains_key(id) ==> base + id <= usize::MAX
    &&& forall|id: NodeID| #[trigger]
        all.contains_key(id) <==> own.contains_key(id) || (id >= base && other.contains_key(
            (id - base) as NodeID,
        ))
    &&& forall|id: NodeID| #[trigger] own.contains_key(id) ==> all[id] == own[id]
    &&& forall|id: NodeID| #[trigger]
        all.contains_key(id) && id >= base ==> all[id] == shifted(other[(id - base) as NodeID], base)
}

/// Adds `base` to the numbers of the nodes that a node is connected to.
fn shift_edges(edges: NodeIDMap<PathSegment>, base: usize, size: usize) -> (moved: NodeIDMap<
    PathSegment,
>)
    requires
        edges.wf(),
        base + size <= usize::MAX,
        forall|k: NodeID| #[trigger] edges@.contains_key(k) ==> k < size,
    ensures
        moved.wf(),
        moved@ == Map::<NodeID, PathSegment>::new(
            |k: NodeID| k >= base && edges@.contains_key((k - base) as NodeID),
            |k: NodeID| edges@[(k - base) as NodeID],
        ),
{
    let ghost all = edges@;
    let ghost entries = edges.entries();
    proof {
        edges.lemma_entries();
    }
    let mut rest: Vec<(NodeID, PathSegment)> = edges.into_entries();
    let mut moved: NodeIDMap<PathSegment> = NodeIDMap::new();
    while rest.len() > 0
        invariant
            moved.wf(),
            base + size <= usize::MAX,
            rest@.len() <= entries.len(),
            rest@ =~= entries.take(rest@.len() as int),
            forall|i: int|
                0 <= i < entries.len() ==> {
                    &&& (#[trigger] entries[i]).0 < size
                    &&& all.contains_key(entries[i].0)
                    &&& all[entries[i].0] == entries[i].1
                },
            forall|k: NodeID| #[trigger]
                moved@.contains_key(k) <==> k >= base && exists|i: int|
                    rest@.len() <= i < entries.len() && (#[trigger] entries[i]).0 == k - base,
            forall|k: NodeID| #[trigger]
                moved@.contains_key(k) ==> moved@[k] == all[(k - base) as NodeID],
        decreases rest@.len(),
    {
        let ghost before = moved@;
        let ghost n = rest@.len() - 1;
        let (id, path) = rest.pop().unwrap();
        assert((id, path) == entries[n]);
        moved.insert(id + base, path);
        proof {
            assert forall|k: NodeID| #[trigger] moved@.contains_key(k) <==> k >= base && exists|
                i: int,
            |
                n <= i < entries.len() && (#[trigger] entries[i]).0 == k - base by {
                if k == id + base {
                    assert(entries[n].0 == k - base);
                } else if before.contains_key(k) {
                    let i = choose|i: int|
                        n + 1 <= i < entries.len() && (#[trigger] entries[i]).0 == k - base;
                    assert(n <= i);
                }
            }
        }
    }
    proof {
        assert forall|k: NodeID| #[trigger] moved@.contains_key(k) <==> k >= base
            && all.contains_key((k - base) as NodeID) by {
            if k >= base && all.contains_key((k - base) as NodeID) {
                let i = choose|i: int|
                    0 <= i < entries.len() && #[trigger] entries[i] == ((k - base) as NodeID, all[(k
                        - base) as NodeID]);
                assert(entries[i].0 == k - base);
            }
        }
        assert(moved@ =~= Map::<NodeID, PathSegment>::new(
            |k: NodeID| k >= base && all.contains_key((k - base) as NodeID),
            |k: NodeID| all[(k - base) as NodeID],
        ));
    }
    moved
}

impl Clone for NodeList {
    fn clone(&self) -> (copy: Self)
        ensures
            self.wf() ==> copy.wf(),
            self.wf() ==> copy@.dom() == self@.dom(),
            self.wf() ==> forall|id: NodeID| #[trigger]
                self@.contains_key(id) ==> is_similar(self@[id], copy@[id]),
    {
        let mut slots: Vec<Option<Node>> = Vec::new();
        for i in 0..self.slots.len()
            invariant
                slots@.len() == i,
                forall|k: int|
                    0 <= k < i ==> {
                        &&& (#[trigger] slots@[k]) is Some == self.slots@[k] is Some
                        &&& slots@[k] is Some ==> {
                            &&& slots@[k]->0.id == self.slots@[k]->0.id
                            &&& slots@[k]->0.edges.wf()
                            &&& self.slots@[k]->0.edges.wf() ==> is_similar(
                                self.slots@[k]->0@,
                                slots@[k]->0@,
                            )
                        }
                    },
        {
            let slot: Option<Node> = match &self.slots[i] {
                Some(node) => Some(node.clone()),
                None => None,
            };
            slots.push(slot);
        }
        let copy = NodeList { slots, free: self.free.clone(), pos_map: self.pos_map.clone() };
        proof {
            if self.wf() {
                assert(copy.free@ =~= self.free@);
                assert(copy@.dom() =~= self@.dom());
                assert forall|p: Point| #[trigger] copy.pos_map@.contains_key(p) implies {
                    let i = copy.pos_map@[p] as int;
                    &&& i < copy.slots@.len()
                    &&& copy.slots@[i] is Some
                    &&& copy.slots@[i]->0.pos == p
                } by {
                    assert(self.pos_map@.dom().contains(p) == copy.pos_map@.dom().contains(p));
                    assert(self.pos_map@.contains_key(p));
                }
                assert forall|i: int|
                    0 <= i < copy.slots@.len() && (#[trigger] copy.slots@[i]) is Some implies {
                    let node = copy.slots@[i]->0;
                    &&& node.id == i
                    &&& node.edges.wf()
                    &&& copy.pos_map@.contains_key(node.pos)
                    &&& copy.pos_map@[node.pos] == i
                } by {
                    let p = self.slots@[i]->0.pos;
                    assert(self.pos_map@.contains_key(p));
                    assert(self.pos_map@.dom().contains(p) == copy.pos_map@.dom().contains(p));
                    assert(copy.slots@[i]->0@.pos == self.slots@[i]->0@.pos);
                }
                assert forall|id: NodeID| #[trigger] self@.contains_key(id) implies is_similar(
                    self@[id],
                    copy@[id],
                ) by {
                    assert(copy.slots@[id as int] is Some);
                }
            }
        }
        copy
    }
}

} // verus!
