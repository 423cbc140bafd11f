//! Removing nodes and connections that a change may have made wrong, and creating nodes anew.

use vstd::prelude::*;

use super::chunk::{
    are_linked_inside, create_nodes, has_new_links_within, is_unchanged_outside, Chunk,
};
use super::connect::lemma_still_linked;
use super::entrance::{is_entrance, is_entrance_to, is_passage_end};
use super::layout::{
    chunk_index, chunk_pos, has_border, is_at_border, is_at_corner, is_at_side, lemma_chunk_pos,
    lemma_region_of, lemma_same_chunk, region_of,
};
use super::limits::fits;
use super::links::{
    are_links_sound, are_nodes_sound, has_entrances, has_node_at, in_same_chunk, is_extended,
    is_graph_of, is_link, is_link_over, is_linked_across, is_linked_inside, is_node_sound, Nodes,
};
use super::renew::{
    are_noted, chunk_origin, is_affected, is_facing, is_justified, is_noted, is_origin,
    is_renewed_by, is_renewed_by_at, lemma_chunk_across, lemma_origin, lemma_two_borders, renew_at,
    Sides,
};
use super::PathCache;
use crate::dir::{next_tile, Dir};
use crate::graph::without_node;
use crate::key_map::{NodeIDSet, PointMap, PointSet};
use crate::neighbors::{on_grid, Neighborhood};
use crate::path::PathSegment;
use crate::terrain::{is_cost_fn, is_ground, lemma_ground_wf, Region, Terrain};
use crate::{NodeID, Point};

verus! {

/// The grids differ in the costs of the given tiles only.
pub open spec fn is_change_of(before: Terrain, after: Terrain, tiles: Seq<Point>) -> bool {
    &&& after.size == before.size
    &&& forall|a: Point, b: Point| #[trigger]
        (after.adjacent)(a, b) == (before.adjacent)(a, b)
    &&& forall|p: Point|
        on_grid(p, after.size) && !tiles.contains(p) ==> #[trigger] (after.cost)(p) == (
        before.cost)(p)
}

/// A node at the tile has to be created anew because of the given side.
pub open spec fn is_renewed_at(
    renew: Map<Point, Sides>,
    p: Point,
    dir: Dir,
    chunk_size: usize,
    size: (usize, usize),
) -> bool {
    let r = region_of(p, chunk_size, size);
    &&& is_at_side(r, p, dir)
    &&& renew_at(renew, chunk_origin(p, chunk_size, size), dir).includes(p, is_at_corner(r, p))
}

/// A node at the tile has to be created anew.
pub open spec fn is_renewed(
    renew: Map<Point, Sides>,
    p: Point,
    chunk_size: usize,
    size: (usize, usize),
) -> bool {
    exists|dir: Dir| #[trigger] is_renewed_at(renew, p, dir, chunk_size, size)
}

/// Some of the nodes, with the connections between them.
pub open spec fn is_restricted(before: Nodes, after: Nodes) -> bool {
    &&& forall|a: NodeID| #[trigger]
        after.contains_key(a) ==> {
            &&& before.contains_key(a)
            &&& after[a].pos == before[a].pos
            &&& after[a].walk_cost == before[a].walk_cost
        }
    &&& forall|a: NodeID, b: NodeID|
        after.contains_key(a) ==> (#[trigger] after[a].edges.contains_key(b)
            <==> before[a].edges.contains_key(b) && after.contains_key(b))
    &&& forall|a: NodeID, b: NodeID|
        after.contains_key(a) && #[trigger] after[a].edges.contains_key(b)
            ==> after[a].edges[b] == before[a].edges[b]
}

/// Connections lead to nodes, and back.
pub open spec fn is_two_way(nodes: Nodes) -> bool {
    forall|a: NodeID, b: NodeID|
        nodes.contains_key(a) && #[trigger] nodes[a].edges.contains_key(b) ==> {
            &&& nodes.contains_key(b)
            &&& a != b
            &&& nodes[b].edges.contains_key(a)
        }
}

proof fn lemma_restricted_without(before: Nodes, nodes: Nodes, id: NodeID)
    requires
        is_restricted(before, nodes),
        is_two_way(nodes),
    ensures
        is_restricted(before, without_node(nodes, id)),
        is_two_way(without_node(nodes, id)),
{
    let after = without_node(nodes, id);
    assert forall|a: NodeID| #[trigger] after.contains_key(a) implies {
        &&& before.contains_key(a)
        &&& after[a].pos == before[a].pos
        &&& after[a].walk_cost == before[a].walk_cost
    } by {
        assert(nodes.contains_key(a));
    }
    assert forall|a: NodeID, b: NodeID| after.contains_key(a) implies (
    #[trigger] after[a].edges.contains_key(b) <==> before[a].edges.contains_key(b)
        && after.contains_key(b)) by {
        assert(nodes.contains_key(a));
        assert(nodes[a].edges.contains_key(b) <==> before[a].edges.contains_key(b)
            && nodes.contains_key(b));
    }
    assert forall|a: NodeID, b: NodeID|
        after.contains_key(a) && #[trigger] after[a].edges.contains_key(b) implies {
        &&& after[a].edges[b] == before[a].edges[b]
        &&& after.contains_key(b)
        &&& a != b
        &&& after[b].edges.contains_key(a)
    } by {
        assert(nodes.contains_key(a));
        assert(nodes[a].edges.contains_key(b));
        assert(nodes[b].edges.contains_key(a));
    }
}

/// The tiles of a chunk are those whose chunk begins where it does.
pub proof fn lemma_tiles_of_origin(cp: Point, p: Point, chunk_size: usize, size: (usize, usize))
    requires
        is_origin(cp, chunk_size, size),
        on_grid(p, size),
        0 < chunk_size,
    ensures
        region_of(cp, chunk_size, size).contains(p) <==> chunk_origin(p, chunk_size, size) == cp,
        region_of(cp, chunk_size, size).contains(p) <==> region_of(p, chunk_size, size) == region_of(
            cp,
            chunk_size,
            size,
        ),
{
    lemma_origin(p, chunk_size, size);
    lemma_region_of(cp, chunk_size, size);
    lemma_region_of(p, chunk_size, size);
}

impl<N: Neighborhood> PathCache<N> {
    /// Removes a node of the chunk of the given index.
    fn remove_node(&mut self, index: usize, id: NodeID)
        requires
            old(self).wf(),
            index < old(self).chunks@.len(),
            old(self).chunks@[index as int].nodes@.contains_key(id),
            is_two_way(old(self).graph()),
        ensures
            final(self).wf(),
            final(self).is_same_frame(old(self)),
            final(self).graph() == without_node(old(self).graph(), id),
    {
        let ghost before = *self;
        proof {
            assert(before.chunks@[index as int].nodes@.contains_key(id));
        }
        self.chunks[index].nodes.remove(&id);
        self.nodes.remove_node(id);
        proof {
            let after = self.chunks@[index as int];
            assert forall|i: int, k: NodeID| 0 <= i < self.chunks@.len() implies (
            #[trigger] self.chunks@[i].nodes@.contains_key(k) <==> self.nodes@.contains_key(k)
                && self.chunks@[i].tiles().contains(self.nodes@[k].pos)) by {
                assert(before.chunks@[i].nodes@.contains_key(k) <==> before.nodes@.contains_key(k)
                    && before.chunks@[i].tiles().contains(before.nodes@[k].pos));
                if i != index {
                    assert(self.chunks@[i] == before.chunks@[i]);
                    if k == id && before.chunks@[i].nodes@.contains_key(k) {
                        // The node would lie in two chunks.
                        let p = before.nodes@[k].pos;
                        let cs = before.config.chunk_size;
                        let (a, b) = (before.chunks@[i], before.chunks@[index as int]);
                        assert(on_grid(p, before.size()));
                        before.lemma_chunk_of(i, p);
                        before.lemma_chunk_of(index as int, p);
                    }
                }
            }
            assert forall|i: int| 0 <= i < self.chunks@.len() implies {
                &&& (#[trigger] self.chunks@[i]).wf(self.config.chunk_size, self.size())
                &&& self.chunks@[i].pos == chunk_pos(i, self.config.chunk_size, self.size())
            } by {
                assert(before.chunks@[i].wf(before.config.chunk_size, before.size()));
                if i == index {
                    assert(self.chunks@[i].tiles() == before.chunks@[i].tiles());
                }
            }
        }
    }

    /// A tile lies in the chunk of its index.
    pub(super) proof fn lemma_chunk_of(&self, i: int, p: Point)
        requires
            self.wf(),
            0 <= i < self.chunks@.len(),
            on_grid(p, self.size()),
        ensures
            self.chunks@[i].tiles().contains(p) <==> chunk_index(
                p,
                self.config.chunk_size,
                self.size(),
            ) == i,
            self.chunks@[i].tiles().contains(p) <==> self.chunks@[i].tiles() == region_of(
                p,
                self.config.chunk_size,
                self.size(),
            ),
            is_origin(self.chunks@[i].pos, self.config.chunk_size, self.size()),
            self.chunks@[i].tiles() == region_of(
                self.chunks@[i].pos,
                self.config.chunk_size,
                self.size(),
            ),
    {
        let cs = self.config.chunk_size;
        let pos = self.chunks@[i].pos;
        self.chunks@[i].lemma_tiles(cs, self.size(), p);
        lemma_chunk_pos(i, cs, self.size());
        lemma_same_chunk(p, pos, cs, self.size());
        lemma_region_of(pos, cs, self.size());
    }
}

/// The chunk is one of the first ones in the list.
pub open spec fn is_among<V>(entries: Seq<(Point, V)>, n: int, cp: Point) -> bool {
    exists|k: int| 0 <= k < n && (#[trigger] entries[k]).0 == cp
}

pub proof fn lemma_among_next<V>(entries: Seq<(Point, V)>, n: int, cp: Point)
    requires
        0 <= n < entries.len(),
    ensures
        is_among(entries, n + 1, cp) <==> is_among(entries, n, cp) || cp == entries[n].0,
{
    if is_among(entries, n, cp) {
        let k = choose|k: int| 0 <= k < n && (#[trigger] entries[k]).0 == cp;
        assert(0 <= k < n + 1 && entries[k].0 == cp);
    }
    if cp == entries[n].0 {
        assert(entries[n].0 == cp);
    }
}

impl<N: Neighborhood> PathCache<N> {
    /// The nodes of a chunk that have to be created anew.
    fn renewed_nodes(&self, index: usize, renew: &PointMap<Sides>, sides: Sides) -> (ids: Vec<
        NodeID,
    >)
        requires
            self.wf(),
            index < self.chunks@.len(),
            renew.wf(),
            renew@.contains_key(self.chunks@[index as int].pos),
            renew@[self.chunks@[index as int].pos] == sides,
            forall|id: NodeID| #[trigger]
                self.graph().contains_key(id) ==> on_grid(self.graph()[id].pos, self.size()),
        ensures
            ids@.no_duplicates(),
            forall|id: NodeID| #[trigger]
                ids@.contains(id) <==> self.chunks@[index as int].nodes@.contains_key(id)
                    && is_renewed(
                    renew@,
                    self.graph()[id].pos,
                    self.settings().chunk_size,
                    self.size(),
                ),
    {
        let chunk: &Chunk = &self.chunks[index];
        let ghost cs = self.config.chunk_size;
        let ghost entries = chunk.nodes.entries();
        let dirs: [Dir; 4] = Dir::all();
        proof {
            chunk.nodes.lemma_entries();
            assert(self.graph() == self.nodes@);
        }
        let mut ids: Vec<NodeID> = Vec::new();
        let count: usize = chunk.nodes.len();
        for i in 0..count
            invariant
                self.wf(),
                index < self.chunks@.len(),
                *chunk == self.chunks@[index as int],
                cs == self.config.chunk_size,
                entries == chunk.nodes.entries(),
                count == entries.len(),
                renew@.contains_key(chunk.pos),
                renew@[chunk.pos] == sides,
                forall|k: int| 0 <= k < 4 ==> #[trigger] dirs@[k] == Dir::numbered(k),
                forall|id: NodeID| #[trigger]
                    self.nodes@.contains_key(id) ==> on_grid(self.nodes@[id].pos, self.size()),
                forall|k: int|
                    0 <= k < entries.len() ==> chunk.nodes@.contains_key((#[trigger] entries[k]).0),
                forall|j: int, k: int|
                    0 <= j < k < entries.len() ==> (#[trigger] entries[j]).0 != (
                    #[trigger] entries[k]).0,
                ids@.no_duplicates(),
                forall|id: NodeID| #[trigger]
                    ids@.contains(id) <==> (exists|k: int|
                        0 <= k < i && (#[trigger] entries[k]).0 == id) && is_renewed(
                        renew@,
                        self.nodes@[id].pos,
                        cs,
                        self.size(),
                    ),
        {
            let id: NodeID = chunk.nodes.entry_at(i).0;
            let ghost previous = ids@;
            assert(entries[i as int].0 == id);
            assert(self.chunks@[index as int].nodes@.contains_key(id));
            let pos: Point = self.nodes.get(id).pos;
            proof {
                self.lemma_chunk_of(index as int, pos);
                lemma_tiles_of_origin(chunk.pos, pos, cs, self.size());
            }
            let corner: bool = chunk.is_corner(pos);
            let mut renewed: bool = false;
            for k in 0..4
                invariant
                    self.wf(),
                    *chunk == self.chunks@[index as int],
                    index < self.chunks@.len(),
                    cs == self.config.chunk_size,
                    chunk.tiles().contains(pos),
                    chunk.tiles() == region_of(pos, cs, self.size()),
                    chunk_origin(pos, cs, self.size()) == chunk.pos,
                    corner == is_at_corner(chunk.tiles(), pos),
                    renew@.contains_key(chunk.pos),
                    renew@[chunk.pos] == sides,
                    forall|j: int| 0 <= j < 4 ==> #[trigger] dirs@[j] == Dir::numbered(j),
                    renewed <==> exists|dir: Dir|
                        dir.number() < k && #[trigger] is_renewed_at(
                            renew@,
                            pos,
                            dir,
                            cs,
                            self.size(),
                        ),
            {
                let dir: Dir = dirs[k];
                let ghost was = renewed;
                assert(dir == Dir::numbered(k as int) && dir.number() == k);
                if chunk.at_side(pos, dir) && sides[dir.num()].has(pos, corner) {
                    renewed = true;
                    assert(is_renewed_at(renew@, pos, dir, cs, self.size()));
                }
                proof {
                    if was {
                        let d = choose|d: Dir|
                            d.number() < k && #[trigger] is_renewed_at(
                                renew@,
                                pos,
                                d,
                                cs,
                                self.size(),
                            );
                        assert(d.number() < k + 1);
                    }
                    if exists|d: Dir|
                        d.number() < k + 1 && #[trigger] is_renewed_at(
                            renew@,
                            pos,
                            d,
                            cs,
                            self.size(),
                        ) {
                        let d = choose|d: Dir|
                            d.number() < k + 1 && #[trigger] is_renewed_at(
                                renew@,
                                pos,
                                d,
                                cs,
                                self.size(),
                            );
                        if d.number() == k {
                            assert(d == dir);
                        }
                    }
                }
            }
            proof {
                if is_renewed(renew@, pos, cs, self.size()) {
                    let d = choose|d: Dir| #[trigger]
                        is_renewed_at(renew@, pos, d, cs, self.size());
                    assert(d.number() < 4);
                }
                assert(renewed <==> is_renewed(renew@, pos, cs, self.size()));
            }
            if renewed {
                ids.push(id);
            }
            proof {
                assert(!previous.contains(id)) by {
                    if previous.contains(id) {
                        let k = choose|k: int| 0 <= k < i && (#[trigger] entries[k]).0 == id;
                        assert(entries[k].0 != entries[i as int].0);
                    }
                }
                assert forall|x: NodeID| #[trigger] ids@.contains(x) <==> (exists|k: int|
                    0 <= k < i + 1 && (#[trigger] entries[k]).0 == x) && is_renewed(
                    renew@,
                    self.nodes@[x].pos,
                    cs,
                    self.size(),
                ) by {
                    if previous.contains(x) {
                        let j = choose|j: int| 0 <= j < previous.len() && previous[j] == x;
                        assert(ids@[j] == x);
                        let k = choose|k: int| 0 <= k < i && (#[trigger] entries[k]).0 == x;
                        assert(0 <= k < i + 1 && entries[k].0 == x);
                    }
                    if x == id && renewed {
                        assert(ids@[previous.len() as int] == x);
                        assert(entries[i as int].0 == x);
                    }
                    if ids@.contains(x) && x != id {
                        let j = choose|j: int| 0 <= j < ids@.len() && ids@[j] == x;
                        assert(previous[j] == x);
                    }
                    if exists|k: int| 0 <= k < i + 1 && (#[trigger] entries[k]).0 == x {
                        let k = choose|k: int| 0 <= k < i + 1 && (#[trigger] entries[k]).0 == x;
                        if k < i {
                            assert(0 <= k < i && entries[k].0 == x);
                        }
                    }
                }
            }
        }
        proof {
            assert forall|id: NodeID| #[trigger] ids@.contains(id)
                <==> self.chunks@[index as int].nodes@.contains_key(id) && is_renewed(
                renew@,
                self.nodes@[id].pos,
                cs,
                self.size(),
            ) by {
                if chunk.nodes@.contains_key(id) {
                    let k = choose|k: int|
                        0 <= k < entries.len() && #[trigger] entries[k] == (id, chunk.nodes@[id]);
                    assert(entries[k].0 == id);
                }
            }
        }
        ids
    }

    /// Removes the nodes that have to be created anew.
    pub(super) fn remove_renewed(&mut self, renew: &PointMap<Sides>)
        requires
            old(self).wf(),
            renew.wf(),
            forall|cp: Point| #[trigger]
                renew@.contains_key(cp) ==> is_origin(
                    cp,
                    old(self).settings().chunk_size,
                    old(self).size(),
                ),
            is_two_way(old(self).graph()),
            forall|id: NodeID| #[trigger]
                old(self).graph().contains_key(id) ==> on_grid(
                    old(self).graph()[id].pos,
                    old(self).size(),
                ),
        ensures
            final(self).wf(),
            final(self).is_same_frame(old(self)),
            is_restricted(old(self).graph(), final(self).graph()),
            forall|id: NodeID| #[trigger]
                old(self).graph().contains_key(id) ==> (final(self).graph().contains_key(id)
                    <==> !is_renewed(
                    renew@,
                    old(self).graph()[id].pos,
                    old(self).settings().chunk_size,
                    old(self).size(),
                )),
    {
        let ghost initial = *self;
        let ghost before = self.nodes@;
        let cs: usize = self.config.chunk_size;
        let ghost size = self.size();
        let ghost entries = renew.entries();
        proof {
            renew.lemma_entries();
            assert forall|id: NodeID| #[trigger] before.contains_key(
                id,
            ) implies !#[trigger] is_among(
                entries,
                0,
                chunk_origin(before[id].pos, cs, size),
            ) by {}
        }
        let count: usize = renew.len();
        for i in 0..count
            invariant
                self.wf(),
                self.is_same_frame(&initial),
                cs == self.config.chunk_size,
                size == self.size(),
                0 < cs,
                renew.wf(),
                entries == renew.entries(),
                count == entries.len(),
                forall|k: int|
                    0 <= k < entries.len() ==> {
                        &&& is_origin((#[trigger] entries[k]).0, cs, size)
                        &&& renew@.contains_key(entries[k].0)
                        &&& renew@[entries[k].0] == entries[k].1
                    },
                forall|j: int, k: int|
                    0 <= j < k < entries.len() ==> (#[trigger] entries[j]).0 != (
                    #[trigger] entries[k]).0,
                forall|id: NodeID| #[trigger]
                    before.contains_key(id) ==> on_grid(before[id].pos, size),
                is_restricted(before, self.nodes@),
                is_two_way(self.nodes@),
                forall|id: NodeID| #[trigger]
                    before.contains_key(id) ==> (self.nodes@.contains_key(id) <==> !(is_among(
                        entries,
                        i as int,
                        chunk_origin(before[id].pos, cs, size),
                    ) && is_renewed(renew@, before[id].pos, cs, size))),
        {
            let entry = renew.entry_at(i);
            let cp: Point = entry.0;
            let sides: Sides = entry.1;
            assert(*entry == entries[i as int]);
            let index: usize = self.get_chunk_index(cp);
            let ghost previous = *self;
            proof {
                self.lemma_chunk(cp);
                self.lemma_chunk_of(index as int, cp);
                assert forall|id: NodeID| #[trigger] self.nodes@.contains_key(id) implies on_grid(
                    self.nodes@[id].pos,
                    size,
                ) by {
                    assert(before.contains_key(id));
                }
                lemma_origin(self.chunks@[index as int].pos, cs, size);
                assert(self.chunks@[index as int].pos == cp);
            }
            let ids: Vec<NodeID> = self.renewed_nodes(index, renew, sides);
            assert forall|j: int|
                0 <= j < ids@.len() implies previous.chunks@[index as int].nodes@.contains_key(
                #[trigger] ids@[j],
            ) by {
                assert(ids@.contains(ids@[j]));
            }
            for k in 0..ids.len()
                invariant
                    self.wf(),
                    self.is_same_frame(&initial),
                    self.is_same_frame(&previous),
                    cs == self.config.chunk_size,
                    size == self.size(),
                    index < self.chunks@.len(),
                    ids@.no_duplicates(),
                    forall|j: int|
                        0 <= j < ids@.len() ==> previous.chunks@[index as int].nodes@.contains_key(
                            #[trigger] ids@[j],
                        ),
                    previous.wf(),
                    is_restricted(before, self.nodes@),
                    is_restricted(previous.nodes@, self.nodes@),
                    is_two_way(self.nodes@),
                    forall|id: NodeID| #[trigger]
                        previous.nodes@.contains_key(id) ==> (self.nodes@.contains_key(id)
                            <==> !ids@.take(k as int).contains(id)),
            {
                let id: NodeID = ids[k];
                let ghost now = self.nodes@;
                proof {
                    let done = ids@.take(k as int);
                    assert(previous.chunks@[index as int].nodes@.contains_key(ids@[k as int]));
                    assert(previous.nodes@.contains_key(id));
                    assert(!done.contains(id)) by {
                        if done.contains(id) {
                            let j = choose|j: int| 0 <= j < done.len() && done[j] == id;
                            assert(ids@[j] == ids@[k as int]);
                        }
                    }
                    assert(self.nodes@.contains_key(id));
                    assert(self.chunks@[index as int].tiles() == previous.chunks@[index as int].tiles());
                    assert(self.chunks@[index as int].nodes@.contains_key(id));
                    lemma_restricted_without(before, now, id);
                    lemma_restricted_without(previous.nodes@, now, id);
                }
                self.remove_node(index, id);
                proof {
                    let done = ids@.take(k as int);
                    let more = ids@.take(k + 1);
                    assert(more =~= done.push(id));
                    assert forall|x: NodeID| #[trigger] previous.nodes@.contains_key(x) implies (
                    self.nodes@.contains_key(x) <==> !more.contains(x)) by {
                        if done.contains(x) {
                            let j = choose|j: int| 0 <= j < done.len() && done[j] == x;
                            assert(more[j] == x);
                        }
                        assert(more[k as int] == id);
                        if more.contains(x) && x != id {
                            let j = choose|j: int| 0 <= j < more.len() && more[j] == x;
                            assert(done[j] == x);
                        }
                    }
                }
            }
            proof {
                assert(ids@.take(ids@.len() as int) =~= ids@);
                assert forall|id: NodeID| #[trigger] before.contains_key(id) implies (
                self.nodes@.contains_key(id) <==> !(is_among(
                    entries,
                    i + 1,
                    chunk_origin(before[id].pos, cs, size),
                ) && is_renewed(renew@, before[id].pos, cs, size))) by {
                    let p = before[id].pos;
                    lemma_among_next(entries, i as int, chunk_origin(p, cs, size));
                    lemma_tiles_of_origin(cp, p, cs, size);
                    if previous.nodes@.contains_key(id) {
                        assert(previous.nodes@[id].pos == p);
                        assert(previous.chunks@[index as int].nodes@.contains_key(id)
                            <==> previous.chunks@[index as int].tiles().contains(p));
                        assert(ids@.contains(id) <==> chunk_origin(p, cs, size) == cp
                            && is_renewed(renew@, p, cs, size));
                    } else if self.nodes@.contains_key(id) {
                        assert(previous.nodes@.contains_key(id));
                    }
                }
            }
        }
        proof {
            assert forall|id: NodeID| #[trigger] before.contains_key(id) implies (
            self.nodes@.contains_key(id) <==> !is_renewed(renew@, before[id].pos, cs, size)) by {
                let p = before[id].pos;
                let cp = chunk_origin(p, cs, size);
                if is_renewed(renew@, p, cs, size) {
                    let d = choose|d: Dir| #[trigger] is_renewed_at(renew@, p, d, cs, size);
                    assert(renew@.contains_key(cp));
                    let k = choose|k: int|
                        0 <= k < entries.len() && #[trigger] entries[k] == (cp, renew@[cp]);
                    assert(entries[k].0 == cp);
                    assert(is_among(entries, count as int, cp));
                }
            }
        }
    }

    /// Removes the connections of the nodes in the given chunks.
    pub(super) fn clear_links(&mut self, dirty: &PointSet)
        requires
            old(self).wf(),
            dirty.wf(),
            forall|cp: Point| #[trigger]
                dirty@.contains_key(cp) ==> is_origin(
                    cp,
                    old(self).settings().chunk_size,
                    old(self).size(),
                ),
            forall|id: NodeID| #[trigger]
                old(self).graph().contains_key(id) ==> on_grid(
                    old(self).graph()[id].pos,
                    old(self).size(),
                ),
        ensures
            final(self).wf(),
            final(self).is_same_frame(old(self)),
            final(self).graph().dom() == old(self).graph().dom(),
            forall|id: NodeID| #[trigger]
                old(self).graph().contains_key(id) ==> final(self).graph()[id] == if dirty@.contains_key(
                    chunk_origin(
                        old(self).graph()[id].pos,
                        old(self).settings().chunk_size,
                        old(self).size(),
                    ),
                ) {
                    old(self).graph()[id].without_edges()
                } else {
                    old(self).graph()[id]
                },
    {
        let ghost initial = *self;
        let ghost before = self.nodes@;
        let cs: usize = self.config.chunk_size;
        let ghost size = self.size();
        let ghost entries = dirty.entries();
        proof {
            dirty.lemma_entries();
            assert(self.graph() == before);
        }
        let count: usize = dirty.len();
        for i in 0..count
            invariant
                self.wf(),
                self.is_same_frame(&initial),
                self.chunks@ == initial.chunks@,
                cs == self.config.chunk_size,
                size == self.size(),
                0 < cs,
                entries == dirty.entries(),
                count == entries.len(),
                forall|k: int|
                    0 <= k < entries.len() ==> is_origin((#[trigger] entries[k]).0, cs, size),
                forall|id: NodeID| #[trigger]
                    before.contains_key(id) ==> on_grid(before[id].pos, size),
                self.nodes@.dom() =~= before.dom(),
                forall|id: NodeID| #[trigger]
                    before.contains_key(id) ==> self.nodes@[id] == if is_among(
                        entries,
                        i as int,
                        chunk_origin(before[id].pos, cs, size),
                    ) {
                        before[id].without_edges()
                    } else {
                        before[id]
                    },
        {
            let cp: Point = dirty.entry_at(i).0;
            assert(entries[i as int].0 == cp);
            let index: usize = self.get_chunk_index(cp);
            let ghost previous = self.nodes@;
            proof {
                self.lemma_chunk(cp);
                self.lemma_chunk_of(index as int, cp);
                lemma_origin(self.chunks@[index as int].pos, cs, size);
            }
            let ghost members = self.chunks@[index as int].nodes;
            let ghost listed = members.entries();
            proof {
                members.lemma_entries();
            }
            let node_count: usize = self.chunks[index].nodes.len();
            for k in 0..node_count
                invariant
                    self.wf(),
                    self.is_same_frame(&initial),
                    self.chunks@ == initial.chunks@,
                    index < self.chunks@.len(),
                    members == self.chunks@[index as int].nodes,
                    listed == members.entries(),
                    node_count == listed.len(),
                    members.wf(),
                    forall|j: int|
                        0 <= j < listed.len() ==> members@.contains_key((#[trigger] listed[j]).0),
                    forall|id: NodeID| #[trigger]
                        members@.contains_key(id) ==> previous.contains_key(id),
                    self.nodes@.dom() =~= previous.dom(),
                    forall|id: NodeID| #[trigger]
                        previous.contains_key(id) ==> self.nodes@[id] == if exists|j: int|
                            0 <= j < k && (#[trigger] listed[j]).0 == id {
                            previous[id].without_edges()
                        } else {
                            previous[id]
                        },
            {
                let id: NodeID = self.chunks[index].nodes.entry_at(k).0;
                let ghost now = *self;
                assert(listed[k as int].0 == id);
                assert(previous.dom().contains(id)) by {
                    assert(members@.contains_key(id));
                    assert(previous.contains_key(id));
                }
                self.nodes.clear_edges(id);
                proof {
                    assert(self.nodes@.dom() =~= previous.dom());
                    assert forall|x: NodeID| #[trigger] previous.contains_key(
                        x,
                    ) implies self.nodes@[x] == if exists|j: int|
                        0 <= j < k + 1 && (#[trigger] listed[j]).0 == x {
                        previous[x].without_edges()
                    } else {
                        previous[x]
                    } by {
                        if x == id {
                            assert(listed[k as int].0 == x);
                            assert(self.nodes@[x] =~= previous[x].without_edges());
                        } else if exists|j: int| 0 <= j < k + 1 && (#[trigger] listed[j]).0 == x {
                            let j = choose|j: int| 0 <= j < k + 1 && (#[trigger] listed[j]).0 == x;
                            assert(0 <= j < k);
                        }
                    }
                    assert forall|j: int, x: NodeID| 0 <= j < self.chunks@.len() implies (
                    #[trigger] self.chunks@[j].nodes@.contains_key(x) <==> self.nodes@.contains_key(
                        x,
                    ) && self.chunks@[j].tiles().contains(self.nodes@[x].pos)) by {
                        assert(now.chunks@[j].nodes@.contains_key(x) <==> now.nodes@.contains_key(x)
                            && now.chunks@[j].tiles().contains(now.nodes@[x].pos));
                        assert(self.nodes@.dom().contains(x) == now.nodes@.dom().contains(x));
                    }
                }
            }
            proof {
                assert forall|id: NodeID| #[trigger] before.contains_key(id) implies self.nodes@[id]
                    == if is_among(entries, i + 1, chunk_origin(before[id].pos, cs, size)) {
                    before[id].without_edges()
                } else {
                    before[id]
                } by {
                    let p = before[id].pos;
                    lemma_among_next(entries, i as int, chunk_origin(p, cs, size));
                    lemma_tiles_of_origin(cp, p, cs, size);
                    assert(previous.dom().contains(id));
                    assert(self.chunks@[index as int].nodes@.contains_key(id)
                        <==> self.nodes@.contains_key(id)
                        && self.chunks@[index as int].tiles().contains(self.nodes@[id].pos));
                    if members@.contains_key(id) {
                        let j = choose|j: int|
                            0 <= j < listed.len() && #[trigger] listed[j] == (id, members@[id]);
                        assert(listed[j].0 == id);
                        assert(self.nodes@[id] =~= before[id].without_edges());
                    } else if exists|j: int| 0 <= j < node_count && (#[trigger] listed[j]).0 == id {
                        let j = choose|j: int|
                            0 <= j < node_count && (#[trigger] listed[j]).0 == id;
                        assert(members@.contains_key(listed[j].0));
                    }
                }
            }
        }
        proof {
            assert forall|id: NodeID| #[trigger] before.contains_key(id) implies self.nodes@[id]
                == if dirty@.contains_key(chunk_origin(before[id].pos, cs, size)) {
                before[id].without_edges()
            } else {
                before[id]
            } by {
                let cp = chunk_origin(before[id].pos, cs, size);
                if dirty@.contains_key(cp) {
                    let k = choose|k: int|
                        0 <= k < entries.len() && #[trigger] entries[k] == (cp, dirty@[cp]);
                    assert(entries[k].0 == cp);
                } else if is_among(entries, count as int, cp) {
                    let k = choose|k: int| 0 <= k < count && (#[trigger] entries[k]).0 == cp;
                    assert(dirty@.contains_key(entries[k].0));
                }
            }
        }
    }
}

/// The tile lies in one of the given chunks.
pub open spec fn is_in_dirty(
    dirty: Set<Point>,
    p: Point,
    chunk_size: usize,
    size: (usize, usize),
) -> bool {
    dirty.contains(chunk_origin(p, chunk_size, size))
}

/// The nodes are sound, those outside the dirty chunks are connected within their chunks,
/// and those inside are not connected.
pub open spec fn is_prepared(
    t: Terrain,
    chunk_size: usize,
    known: bool,
    nodes: Nodes,
    dirty: Set<Point>,
) -> bool {
    &&& are_nodes_sound(t, chunk_size, nodes)
    &&& are_links_sound(t, chunk_size, known, nodes)
    &&& forall|a: NodeID, b: NodeID|
        nodes.contains_key(a) && nodes.contains_key(b) && !is_in_dirty(
            dirty,
            nodes[a].pos,
            chunk_size,
            t.size,
        ) ==> #[trigger] is_linked_inside(t, chunk_size, nodes, a, b)
    &&& forall|a: NodeID, b: NodeID|
        nodes.contains_key(a) && is_in_dirty(dirty, nodes[a].pos, chunk_size, t.size)
            ==> !#[trigger] nodes[a].edges.contains_key(b)
}

/// The nodes outside the dirty chunks are connected across the borders.
pub open spec fn has_links_across(
    t: Terrain,
    chunk_size: usize,
    nodes: Nodes,
    dirty: Set<Point>,
) -> bool {
    forall|a: NodeID, b: NodeID|
        nodes.contains_key(a) && nodes.contains_key(b) && !is_in_dirty(
            dirty,
            nodes[a].pos,
            chunk_size,
            t.size,
        ) && !is_in_dirty(dirty, nodes[b].pos, chunk_size, t.size)
            ==> #[trigger] is_linked_across(t, chunk_size, nodes, a, b)
}

/// There is a node at each entrance at a side where nothing has to be created anew.
pub open spec fn has_old_entrances(
    t: Terrain,
    chunk_size: usize,
    nodes: Nodes,
    renew: Map<Point, Sides>,
) -> bool {
    forall|p: Point, dir: Dir| #[trigger]
        is_entrance_to(t, chunk_size, p, dir) && renew_at(
            renew,
            chunk_origin(p, chunk_size, t.size),
            dir,
        ) is No ==> has_node_at(nodes, p)
}

/// Within a rectangle in which nothing has changed, the steps are the same.
pub proof fn lemma_same_steps(before: Terrain, after: Terrain, tiles: Seq<Point>, r: Region)
    requires
        is_change_of(before, after, tiles),
        forall|p: Point| #[trigger] r.contains(p) ==> !tiles.contains(p),
    ensures
        after.edges(r) == before.edges(r),
        forall|p: Point| #[trigger] r.contains(p) ==> after.open(p) == before.open(p),
{
    let (e, f) = (before.edges(r), after.edges(r));
    assert forall|p: Point| #[trigger] r.contains(p) implies after.open(p) == before.open(p) by {
        if on_grid(p, after.size) {
            assert((after.cost)(p) == (before.cost)(p));
        }
    }
    assert forall|a: Point, b: Point| #[trigger] e(a, b) == f(a, b) by {
        if r.contains(a) && r.contains(b) {
            assert((after.adjacent)(a, b) == (before.adjacent)(a, b));
            if on_grid(a, after.size) {
                assert((after.cost)(a) == (before.cost)(a));
            }
        }
    }
    assert(e =~= f);
}

/// Where nothing has to be created anew, no tile at the side or across from it has changed.
proof fn lemma_side_unchanged(
    renew: Map<Point, Sides>,
    tiles: Seq<Point>,
    p: Point,
    dir: Dir,
    chunk_size: usize,
    size: (usize, usize),
)
    requires
        0 < chunk_size,
        on_grid(p, size),
        are_noted(renew, tiles, chunk_size, size),
        is_at_border(p, dir, chunk_size, size),
        renew_at(renew, chunk_origin(p, chunk_size, size), dir) is No,
    ensures
        !tiles.contains(p),
        !tiles.contains(next_tile(p, dir, size)->0),
{
    lemma_chunk_across(p, dir, chunk_size, size);
    let q = next_tile(p, dir, size)->0;
    if tiles.contains(p) {
        let i = choose|i: int| 0 <= i < tiles.len() && tiles[i] == p;
        assert(is_noted(renew, tiles[i], dir, chunk_size, size));
    }
    if tiles.contains(q) {
        let i = choose|i: int| 0 <= i < tiles.len() && tiles[i] == q;
        assert(is_noted(renew, tiles[i], dir.back(), chunk_size, size));
        assert(dir.back().back() == dir);
    }
}

/// An entrance at a side where nothing has to be created anew was one before.
proof fn lemma_entrance_unchanged(
    before: Terrain,
    after: Terrain,
    tiles: Seq<Point>,
    renew: Map<Point, Sides>,
    p: Point,
    dir: Dir,
    chunk_size: usize,
)
    requires
        0 < chunk_size,
        is_change_of(before, after, tiles),
        are_noted(renew, tiles, chunk_size, after.size),
        is_entrance_to(after, chunk_size, p, dir),
        renew_at(renew, chunk_origin(p, chunk_size, after.size), dir) is No,
    ensures
        is_entrance_to(before, chunk_size, p, dir),
{
    let size = after.size;
    let r = region_of(p, chunk_size, size);
    lemma_side_unchanged(renew, tiles, p, dir, chunk_size, size);
    lemma_chunk_across(p, dir, chunk_size, size);
    lemma_region_of(p, chunk_size, size);
    let across = next_tile(p, dir, size);
    assert((after.cost)(p) == (before.cost)(p));
    assert((after.cost)(across->0) == (before.cost)(across->0));
    assert forall|side: Dir|
        (side == dir.turned() || side == dir.turned().back()) && #[trigger] is_passage_end(
            after,
            r,
            p,
            dir,
            side,
        ) implies is_passage_end(before, r, p, dir, side) by {
        let next = next_tile(p, side, size);
        if next is Some && r.contains(next->0) {
            let n = next->0;
            lemma_region_of(n, chunk_size, size);
            assert(region_of(n, chunk_size, size) == r);
            lemma_side_unchanged(renew, tiles, n, dir, chunk_size, size);
            lemma_chunk_across(n, dir, chunk_size, size);
            let diagonal = next_tile(n, dir, size)->0;
            assert((after.cost)(n) == (before.cost)(n));
            assert((after.cost)(diagonal) == (before.cost)(diagonal));
        }
    }
}

/// A node at a tile that has changed has to be created anew.
proof fn lemma_changed_is_renewed(
    renew: Map<Point, Sides>,
    tiles: Seq<Point>,
    p: Point,
    dir: Dir,
    chunk_size: usize,
    size: (usize, usize),
)
    requires
        are_noted(renew, tiles, chunk_size, size),
        tiles.contains(p),
        is_at_border(p, dir, chunk_size, size),
    ensures
        is_renewed(renew, p, chunk_size, size),
{
    let i = choose|i: int| 0 <= i < tiles.len() && tiles[i] == p;
    assert(is_noted(renew, tiles[i], dir, chunk_size, size));
    assert(is_renewed_at(renew, p, dir, chunk_size, size));
}

/// The nodes that are created anew are those for which the change of the tiles demands it.
pub proof fn lemma_renewed(
    renew: Map<Point, Sides>,
    tiles: Seq<Point>,
    p: Point,
    chunk_size: usize,
    size: (usize, usize),
)
    requires
        0 < chunk_size,
        on_grid(p, size),
        are_noted(renew, tiles, chunk_size, size),
        is_justified(renew, tiles, chunk_size, size),
    ensures
        is_renewed(renew, p, chunk_size, size) <==> is_renewed_by(tiles, p, chunk_size, size),
{
    let r = region_of(p, chunk_size, size);
    let cp = chunk_origin(p, chunk_size, size);
    lemma_origin(p, chunk_size, size);
    lemma_region_of(p, chunk_size, size);
    if is_renewed(renew, p, chunk_size, size) {
        let dir = choose|dir: Dir| #[trigger] is_renewed_at(renew, p, dir, chunk_size, size);
        assert(renew.contains_key(cp) && !(renew_at(renew, cp, dir) is No));
        assert(is_renewed_by_at(tiles, p, dir, chunk_size, size));
    }
    if is_renewed_by(tiles, p, chunk_size, size) {
        let dir = choose|dir: Dir| #[trigger]
            is_renewed_by_at(tiles, p, dir, chunk_size, size);
        if is_at_corner(r, p) {
            lemma_changed_is_renewed(renew, tiles, p, dir, chunk_size, size);
        } else {
            let q = choose|q: Point| #[trigger]
                tiles.contains(q) && is_facing(q, cp, dir, chunk_size, size);
            let i = choose|i: int| 0 <= i < tiles.len() && tiles[i] == q;
            assert(dir.back().back() == dir);
            if is_at_border(q, dir, chunk_size, size) && chunk_origin(q, chunk_size, size) == cp {
                assert(is_noted(renew, tiles[i], dir, chunk_size, size));
            } else {
                assert(is_noted(renew, tiles[i], dir.back(), chunk_size, size));
            }
            assert(is_renewed_at(renew, p, dir, chunk_size, size));
        }
    }
}

/// A node at a side where nothing has to be created anew stays.
proof fn lemma_not_renewed(
    renew: Map<Point, Sides>,
    tiles: Seq<Point>,
    p: Point,
    dir: Dir,
    chunk_size: usize,
    size: (usize, usize),
)
    requires
        0 < chunk_size,
        on_grid(p, size),
        are_noted(renew, tiles, chunk_size, size),
        is_justified(renew, tiles, chunk_size, size),
        is_at_border(p, dir, chunk_size, size),
        renew_at(renew, chunk_origin(p, chunk_size, size), dir) is No,
    ensures
        !is_renewed(renew, p, chunk_size, size),
{
    if is_renewed(renew, p, chunk_size, size) {
        let d = choose|d: Dir| #[trigger] is_renewed_at(renew, p, d, chunk_size, size);
        let cp = chunk_origin(p, chunk_size, size);
        lemma_origin(p, chunk_size, size);
        lemma_region_of(p, chunk_size, size);
        lemma_side_unchanged(renew, tiles, p, dir, chunk_size, size);
        assert(renew.contains_key(cp) && !(renew_at(renew, cp, d) is No));
        assert(is_at_border(p, d, chunk_size, size));
        lemma_two_borders(p, d, dir, chunk_size, size);
        assert(tiles.contains(p));
    }
}

/// What holds after the nodes at the changed sides and the connections in the changed
/// chunks have been removed.
pub proof fn lemma_prepared(
    before: Terrain,
    after: Terrain,
    tiles: Seq<Point>,
    renew: Map<Point, Sides>,
    dirty: Set<Point>,
    chunk_size: usize,
    known: bool,
    nodes: Nodes,
    rest: Nodes,
    cleared: Nodes,
)
    requires
        0 < chunk_size,
        after.wf(),
        is_change_of(before, after, tiles),
        are_noted(renew, tiles, chunk_size, after.size),
        is_justified(renew, tiles, chunk_size, after.size),
        forall|p: Point|
            on_grid(p, after.size) && tiles.contains(p) ==> #[trigger] is_in_dirty(
                dirty,
                p,
                chunk_size,
                after.size,
            ),
        is_graph_of(before, chunk_size, known, nodes),
        is_restricted(nodes, rest),
        forall|id: NodeID| #[trigger]
            nodes.contains_key(id) ==> (rest.contains_key(id) <==> !is_renewed(
                renew,
                nodes[id].pos,
                chunk_size,
                after.size,
            )),
        cleared.dom() == rest.dom(),
        forall|id: NodeID| #[trigger]
            rest.contains_key(id) ==> cleared[id] == if is_in_dirty(
                dirty,
                rest[id].pos,
                chunk_size,
                after.size,
            ) {
                rest[id].without_edges()
            } else {
                rest[id]
            },
    ensures
        is_prepared(after, chunk_size, known, cleared, dirty),
        has_links_across(after, chunk_size, cleared, dirty),
        has_old_entrances(after, chunk_size, cleared, renew),
{
    let size = after.size;
    assert forall|a: NodeID| #[trigger] cleared.contains_key(a) implies {
        &&& nodes.contains_key(a)
        &&& rest.contains_key(a)
        &&& cleared[a].pos == nodes[a].pos
        &&& cleared[a].walk_cost == nodes[a].walk_cost
        &&& on_grid(nodes[a].pos, size)
        &&& !tiles.contains(nodes[a].pos)
        &&& is_node_sound(after, chunk_size, cleared[a])
    } by {
        assert(cleared.dom().contains(a));
        assert(rest.contains_key(a));
        assert(is_node_sound(before, chunk_size, nodes[a]));
        let p = nodes[a].pos;
        let dir = choose|dir: Dir| #[trigger] is_at_border(p, dir, chunk_size, before.size);
        assert(is_at_border(p, dir, chunk_size, size));
        if tiles.contains(p) {
            lemma_changed_is_renewed(renew, tiles, p, dir, chunk_size, size);
        }
        assert((after.cost)(p) == (before.cost)(p));
    }
    assert forall|p: Point|
        on_grid(p, size) && !#[trigger] is_in_dirty(dirty, p, chunk_size, size) implies ({
        let r = region_of(p, chunk_size, size);
        &&& after.edges(r) == before.edges(r)
        &&& forall|q: Point| #[trigger] r.contains(q) ==> after.open(q) == before.open(q)
    }) by {
        let r = region_of(p, chunk_size, size);
        lemma_region_of(p, chunk_size, size);
        assert forall|q: Point| #[trigger] r.contains(q) implies !tiles.contains(q) by {
            if tiles.contains(q) {
                assert(on_grid(q, size));
                assert(region_of(q, chunk_size, size) == r);
                assert(is_in_dirty(dirty, q, chunk_size, size));
            }
        }
        lemma_same_steps(before, after, tiles, r);
    }
    assert forall|a: NodeID, b: NodeID|
        cleared.contains_key(a) && #[trigger] cleared[a].edges.contains_key(b) implies {
        &&& cleared.contains_key(b)
        &&& a != b
        &&& is_link(after, chunk_size, cleared[a].pos, cleared[b].pos, cleared[a].edges[b])
        &&& cleared[a].edges[b] is Known == known
    } by {
        let (p, q) = (nodes[a].pos, nodes[b].pos);
        assert(!is_in_dirty(dirty, p, chunk_size, size));
        assert(rest[a].edges.contains_key(b));
        assert(nodes[a].edges.contains_key(b));
        assert(rest.contains_key(b));
        assert(cleared.dom().contains(b));
        assert(cleared.contains_key(b));
        let path = nodes[a].edges[b];
        let r = region_of(p, chunk_size, size);
        let s = choose|s: Seq<Point>| #[trigger] is_link_over(before, chunk_size, p, q, path, s);
        assert((after.adjacent)(p, q) == (before.adjacent)(p, q));
        assert((after.cost)(p) == (before.cost)(p));
        assert(is_link_over(after, chunk_size, p, q, path, s));
    }
    assert forall|a: NodeID, b: NodeID|
        cleared.contains_key(a) && cleared.contains_key(b) && !is_in_dirty(
            dirty,
            cleared[a].pos,
            chunk_size,
            size,
        ) implies #[trigger] is_linked_inside(after, chunk_size, cleared, a, b) by {
        let (p, q) = (nodes[a].pos, nodes[b].pos);
        let r = region_of(p, chunk_size, size);
        assert(is_linked_inside(before, chunk_size, nodes, a, b));
        if after.has_path_in(r, p, q) {
            assert(before.has_path_in(r, p, q));
            assert(rest[a].edges.contains_key(b) <==> nodes[a].edges.contains_key(b)
                && rest.contains_key(b));
        }
    }
    assert forall|a: NodeID, b: NodeID|
        cleared.contains_key(a) && cleared.contains_key(b) && !is_in_dirty(
            dirty,
            cleared[a].pos,
            chunk_size,
            size,
        ) && !is_in_dirty(
            dirty,
            cleared[b].pos,
            chunk_size,
            size,
        ) implies #[trigger] is_linked_across(after, chunk_size, cleared, a, b) by {
        let (p, q) = (nodes[a].pos, nodes[b].pos);
        assert(is_linked_across(before, chunk_size, nodes, a, b));
        assert((after.adjacent)(p, q) == (before.adjacent)(p, q));
        assert(rest[a].edges.contains_key(b) <==> nodes[a].edges.contains_key(b)
            && rest.contains_key(b));
    }
    assert forall|p: Point, dir: Dir| #[trigger]
        is_entrance_to(after, chunk_size, p, dir) && renew_at(
            renew,
            chunk_origin(p, chunk_size, size),
            dir,
        ) is No implies has_node_at(cleared, p) by {
        lemma_entrance_unchanged(before, after, tiles, renew, p, dir, chunk_size);
        lemma_not_renewed(renew, tiles, p, dir, chunk_size, size);
        assert(is_entrance(before, chunk_size, p));
        assert(has_node_at(nodes, p));
        let a = choose|a: NodeID| #[trigger] nodes.contains_key(a) && nodes[a].pos == p;
        assert(rest.contains_key(a));
        assert(cleared.dom().contains(a));
        assert(cleared.contains_key(a) && cleared[a].pos == p);
    }
}

/// The tile is an entrance at a side where nodes have to be created anew.
pub open spec fn is_renewed_entrance(
    t: Terrain,
    chunk_size: usize,
    renew: Map<Point, Sides>,
    p: Point,
    dir: Dir,
) -> bool {
    &&& is_entrance_to(t, chunk_size, p, dir)
    &&& !(renew_at(renew, chunk_origin(p, chunk_size, t.size), dir) is No)
}

/// The nodes are still there, with at least the connections that they had.
pub open spec fn is_grown(before: Nodes, after: Nodes) -> bool {
    forall|a: NodeID| #[trigger]
        before.contains_key(a) ==> {
            &&& after.contains_key(a)
            &&& after[a].pos == before[a].pos
            &&& after[a].walk_cost == before[a].walk_cost
            &&& forall|b: NodeID| #[trigger]
                before[a].edges.contains_key(b) ==> after[a].edges.contains_key(b)
        }
}

/// The nodes of the chunks that the change of the tiles does not affect are still there.
pub open spec fn are_others_kept(
    before: Nodes,
    after: Nodes,
    tiles: Seq<Point>,
    chunk_size: usize,
    size: (usize, usize),
) -> bool {
    forall|a: NodeID| #[trigger]
        before.contains_key(a) && !is_affected(tiles, before[a].pos, chunk_size, size) ==> {
            &&& after.contains_key(a)
            &&& after[a].pos == before[a].pos
            &&& after[a].walk_cost == before[a].walk_cost
        }
}

/// Of the nodes, those are left that do not have to be created anew after a change of the
/// given tiles.
pub open spec fn are_kept(
    before: Nodes,
    rest: Nodes,
    tiles: Seq<Point>,
    chunk_size: usize,
    size: (usize, usize),
) -> bool {
    &&& forall|a: NodeID| #[trigger]
        rest.contains_key(a) ==> before.contains_key(a) && !is_renewed_by(
            tiles,
            before[a].pos,
            chunk_size,
            size,
        )
    &&& forall|a: NodeID| #[trigger]
        before.contains_key(a) && !is_renewed_by(tiles, before[a].pos, chunk_size, size) ==> {
            &&& rest.contains_key(a)
            &&& rest[a].pos == before[a].pos
            &&& rest[a].walk_cost == before[a].walk_cost
        }
}

/// The nodes before and after a change of the given tiles, with the grid after it: there is
/// a node at each entrance, the nodes that do not have to be created anew are still there,
/// and there are no others.
pub open spec fn are_updated(
    t: Terrain,
    chunk_size: usize,
    before: Nodes,
    after: Nodes,
    tiles: Seq<Point>,
) -> bool {
    &&& forall|p: Point| #[trigger]
        has_node_at(after, p) <==> is_entrance(t, chunk_size, p) || (has_node_at(before, p)
            && !is_renewed_by(tiles, p, chunk_size, t.size))
    &&& forall|a: NodeID| #[trigger]
        before.contains_key(a) && !is_renewed_by(tiles, before[a].pos, chunk_size, t.size) ==> {
            &&& after.contains_key(a)
            &&& after[a].pos == before[a].pos
            &&& after[a].walk_cost == before[a].walk_cost
        }
}

/// What a change leaves of the nodes, with what is created anew, is what there is after it.
pub proof fn lemma_updated(
    t: Terrain,
    chunk_size: usize,
    known: bool,
    before: Nodes,
    rest: Nodes,
    renewed: Nodes,
    reconnected: Nodes,
    after: Nodes,
    tiles: Seq<Point>,
    dirty: Set<Point>,
    changed: Set<NodeID>,
)
    requires
        are_kept(before, rest, tiles, chunk_size, t.size),
        is_renewing(t, chunk_size, known, rest, renewed, dirty, changed),
        is_extended(renewed, reconnected),
        is_extended(reconnected, after),
        has_entrances(t, chunk_size, after),
    ensures
        are_updated(t, chunk_size, before, after, tiles),
{
    assert forall|a: NodeID| #[trigger] renewed.contains_key(a) implies {
        &&& after.contains_key(a)
        &&& after[a].pos == renewed[a].pos
        &&& after[a].walk_cost == renewed[a].walk_cost
    } by {
        assert(reconnected.dom().contains(a));
        assert(reconnected.contains_key(a));
        assert(after.dom().contains(a));
    }
    assert forall|p: Point| #[trigger] has_node_at(after, p) <==> is_entrance(t, chunk_size, p) || (
    has_node_at(before, p) && !is_renewed_by(tiles, p, chunk_size, t.size)) by {
        if has_node_at(after, p) {
            let a = choose|a: NodeID| #[trigger] after.contains_key(a) && after[a].pos == p;
            assert(after.dom().contains(a));
            assert(reconnected.contains_key(a));
            assert(reconnected.dom().contains(a));
            assert(renewed.contains_key(a));
            if rest.contains_key(a) {
                assert(before.contains_key(a) && before[a].pos == p);
            }
        }
        if has_node_at(before, p) && !is_renewed_by(tiles, p, chunk_size, t.size) {
            let a = choose|a: NodeID| #[trigger] before.contains_key(a) && before[a].pos == p;
            assert(rest.contains_key(a));
            assert(renewed.contains_key(a));
            assert(after.contains_key(a) && after[a].pos == p);
        }
    }
}

/// Nodes are being created anew; `changed` are those outside the dirty chunks.
pub open spec fn is_renewing(
    t: Terrain,
    chunk_size: usize,
    known: bool,
    base: Nodes,
    nodes: Nodes,
    dirty: Set<Point>,
    changed: Set<NodeID>,
) -> bool {
    &&& is_prepared(t, chunk_size, known, nodes, dirty)
    &&& is_grown(base, nodes)
    &&& forall|a: NodeID| #[trigger]
        nodes.contains_key(a) && !base.contains_key(a) ==> is_entrance(t, chunk_size, nodes[a].pos)
    &&& forall|a: NodeID| #[trigger]
        changed.contains(a) <==> nodes.contains_key(a) && !base.contains_key(a) && !is_in_dirty(
            dirty,
            nodes[a].pos,
            chunk_size,
            t.size,
        )
    &&& forall|a: NodeID, b: NodeID|
        changed.contains(a) && #[trigger] nodes[a].edges.contains_key(b) ==> in_same_chunk(
            t,
            chunk_size,
            nodes[a],
            nodes[b],
        )
}

impl<N: Neighborhood> PathCache<N> {
    /// The entrances of a chunk at sides where nodes have to be created anew, if there is
    /// no node.
    pub(super) fn missing_entrances<F: FnMut(Point) -> isize>(
        &self,
        index: usize,
        sides: Sides,
        get_cost: &mut F,
        renew: &PointMap<Sides>,
        Ghost(t): Ghost<Terrain>,
    ) -> (missing: PointSet)
        requires
            self.wf(),
            index < self.chunks@.len(),
            t.size == self.size(),
            is_ground(t, self.surroundings()),
            is_cost_fn(*old(get_cost), t),
            renew@.contains_key(self.chunks@[index as int].pos),
            renew@[self.chunks@[index as int].pos] == sides,
            forall|dir: Dir|
                !(#[trigger] renew_at(renew@, self.chunks@[index as int].pos, dir) is No)
                    ==> has_border(self.chunks@[index as int].tiles(), dir, self.size()),
        ensures
            *final(get_cost) == *old(get_cost),
            missing.wf(),
            forall|p: Point| #[trigger]
                missing@.contains_key(p) <==> self.chunks@[index as int].tiles().contains(p) && (
                exists|dir: Dir| #[trigger]
                    is_renewed_entrance(t, self.settings().chunk_size, renew@, p, dir))
                    && !has_node_at(self.graph(), p),
    {
        let chunk: &Chunk = &self.chunks[index];
        let cs: usize = self.config.chunk_size;
        let ghost cost_fn = *get_cost;
        let ghost r = chunk.tiles();
        let dirs: [Dir; 4] = Dir::all();
        let mut candidates: PointSet = PointSet::new();
        for i in 0..4
            invariant
                self.wf(),
                *chunk == self.chunks@[index as int],
                index < self.chunks@.len(),
                cs == self.config.chunk_size,
                chunk.wf(cs, self.size()),
                r == chunk.tiles(),
                t.size == self.size(),
                is_ground(t, self.surroundings()),
                *get_cost == cost_fn,
                is_cost_fn(cost_fn, t),
                renew@.contains_key(chunk.pos),
                renew@[chunk.pos] == sides,
                forall|dir: Dir|
                    !(#[trigger] renew_at(renew@, chunk.pos, dir) is No) ==> has_border(
                        r,
                        dir,
                        self.size(),
                    ),
                candidates.wf(),
                forall|k: int| 0 <= k < 4 ==> #[trigger] dirs@[k] == Dir::numbered(k),
                forall|p: Point| #[trigger]
                    candidates@.contains_key(p) <==> r.contains(p) && exists|dir: Dir|
                        dir.number() < i && #[trigger] is_renewed_entrance(
                            t,
                            cs,
                            renew@,
                            p,
                            dir,
                        ),
        {
            let dir: Dir = dirs[i];
            let ghost previous = candidates@;
            assert(dir == Dir::numbered(i as int) && dir.number() == i);
            assert(renew_at(renew@, chunk.pos, dir) == sides@[i as int]);
            if sides[dir.num()].is_needed() {
                chunk.calculate_side_nodes(
                    &self.neighborhood,
                    dir,
                    (self.width, self.height),
                    get_cost,
                    self.config,
                    &mut candidates,
                    Ghost(t),
                );
            }
            proof {
                assert forall|p: Point| #[trigger] candidates@.contains_key(p) <==> r.contains(p)
                    && exists|d: Dir|
                    d.number() < i + 1 && #[trigger] is_renewed_entrance(t, cs, renew@, p, d) by {
                    if r.contains(p) {
                        self.lemma_chunk_of(index as int, p);
                        lemma_tiles_of_origin(chunk.pos, p, cs, self.size());
                    }
                    if r.contains(p) && is_renewed_entrance(t, cs, renew@, p, dir) {
                        assert(candidates@.contains_key(p));
                    }
                    if candidates@.contains_key(p) && !previous.contains_key(p) {
                        assert(is_renewed_entrance(t, cs, renew@, p, dir));
                    }
                    if previous.contains_key(p) {
                        let d = choose|d: Dir|
                            d.number() < i && #[trigger] is_renewed_entrance(t, cs, renew@, p, d);
                        assert(d.number() < i + 1);
                    }
                    if exists|d: Dir|
                        d.number() < i + 1 && #[trigger] is_renewed_entrance(t, cs, renew@, p, d) {
                        let d = choose|d: Dir|
                            d.number() < i + 1 && #[trigger] is_renewed_entrance(
                                t,
                                cs,
                                renew@,
                                p,
                                d,
                            );
                        if d != dir {
                            assert(d.number() < i);
                        }
                    }
                }
            }
        }
        let mut missing: PointSet = PointSet::new();
        let ghost entries = candidates.entries();
        proof {
            candidates.lemma_entries();
        }
        let count: usize = candidates.len();
        for i in 0..count
            invariant
                self.wf(),
                entries == candidates.entries(),
                count == entries.len(),
                missing.wf(),
                forall|p: Point| #[trigger]
                    missing@.contains_key(p) <==> is_among(entries, i as int, p) && !has_node_at(
                        self.nodes@,
                        p,
                    ),
        {
            let p: Point = candidates.entry_at(i).0;
            assert(entries[i as int].0 == p);
            let at: Option<NodeID> = self.node_at(p);
            assert(at is None <==> !has_node_at(self.nodes@, p));
            if at.is_none() {
                missing.insert(p, ());
            }
            proof {
                assert forall|q: Point| #[trigger] missing@.contains_key(q) <==> is_among(
                    entries,
                    i + 1,
                    q,
                ) && !has_node_at(self.nodes@, q) by {
                    lemma_among_next(entries, i as int, q);
                }
            }
        }
        proof {
            assert(self.graph() == self.nodes@ && self.settings().chunk_size == cs);
            assert forall|p: Point| #[trigger] missing@.contains_key(p) <==> r.contains(p) && (
            exists|dir: Dir| #[trigger] is_renewed_entrance(t, cs, renew@, p, dir))
                && !has_node_at(self.nodes@, p) by {
                if is_among(entries, count as int, p) {
                    let k = choose|k: int| 0 <= k < count && (#[trigger] entries[k]).0 == p;
                    assert(candidates@.contains_key(entries[k].0));
                }
                if candidates@.contains_key(p) {
                    let k = choose|k: int|
                        0 <= k < entries.len() && #[trigger] entries[k] == (p, candidates@[p]);
                    assert(entries[k].0 == p);
                    assert(is_among(entries, count as int, p));
                }
                if exists|dir: Dir| #[trigger] is_renewed_entrance(t, cs, renew@, p, dir) {
                    let d = choose|d: Dir| #[trigger] is_renewed_entrance(t, cs, renew@, p, d);
                    assert(d.number() < 4);
                }
            }
        }
        missing
    }

    /// Creates nodes at the given tiles of a chunk; they are connected, unless the chunk is
    /// dirty.
    pub(super) fn add_missing<F: FnMut(Point) -> isize>(
        &mut self,
        index: usize,
        missing: PointSet,
        is_dirty: bool,
        get_cost: &mut F,
        changed: &mut NodeIDSet,
        Ghost(base): Ghost<Nodes>,
        Ghost(dirty): Ghost<Set<Point>>,
    )
        requires
            old(self).wf(),
            index < old(self).chunks@.len(),
            is_ground(old(self).terrain(), old(self).surroundings()),
            is_cost_fn(*old(get_cost), old(self).terrain()),
            fits(
                old(self).terrain(),
                old(self).settings().chunk_size,
            ),
            missing.wf(),
            forall|p: Point| #[trigger]
                missing@.contains_key(p) ==> {
                    &&& old(self).chunks@[index as int].tiles().contains(p)
                    &&& is_entrance(
                        old(self).terrain(),
                        old(self).settings().chunk_size,
                        p,
                    )
                    &&& !has_node_at(old(self).graph(), p)
                },
            old(changed).wf(),
            is_dirty == dirty.contains(old(self).chunks@[index as int].pos),
            is_renewing(
                old(self).terrain(),
                old(self).settings().chunk_size,
                old(self).settings().cache_paths,
                base,
                old(self).graph(),
                dirty,
                old(changed)@.dom(),
            ),
        ensures
            *final(get_cost) == *old(get_cost),
            final(self).wf(),
            final(self).is_same_frame(old(self)),
            final(changed).wf(),
            is_renewing(
                old(self).terrain(),
                old(self).settings().chunk_size,
                old(self).settings().cache_paths,
                base,
                final(self).graph(),
                dirty,
                final(changed)@.dom(),
            ),
            is_grown(old(self).graph(), final(self).graph()),
            forall|p: Point| #[trigger]
                missing@.contains_key(p) ==> has_node_at(final(self).graph(), p),
    {
        let ghost t = self.terrain();
        let ghost initial = *self;
        let ghost before = self.nodes@;
        let ghost known = self.config.cache_paths;
        let cs: usize = self.config.chunk_size;
        let ghost size = self.size();
        let ghost r = self.chunks@[index as int].tiles();
        let ghost members = self.chunks@[index as int].nodes@.dom();
        let ghost tiles = missing@.dom();
        let ghost changed_before = changed@.dom();
        proof {
            self.lemma_nodes();
            lemma_ground_wf(self.terrain(), self.neighborhood);
            assert forall|p: Point| #[trigger] missing@.contains_key(p) implies {
                &&& t.open(p)
                &&& exists|dir: Dir| #[trigger] is_at_border(p, dir, cs, t.size)
                &&& !has_node_at(before, p)
            } by {
                let d = choose|d: Dir| #[trigger] is_entrance_to(t, cs, p, d);
                assert(is_at_border(p, d, cs, t.size));
            }
        }
        let ids: Vec<NodeID> = create_nodes(
            missing,
            get_cost,
            &mut self.nodes,
            Ghost(t),
            Ghost(cs),
            Ghost(known),
        );
        let ghost created = self.nodes@;
        let ghost new_ids = ids@.to_set();
        proof {
            self.nodes.lemma_positions();
            assert forall|a: NodeID| #[trigger] created.contains_key(a) implies {
                &&& on_grid(created[a].pos, size)
                &&& new_ids.contains(a) <==> !before.contains_key(a)
                &&& new_ids.contains(a) ==> {
                    &&& r.contains(created[a].pos)
                    &&& created[a].edges == Map::<NodeID, PathSegment>::empty()
                    &&& chunk_origin(created[a].pos, cs, size)
                        == initial.chunks@[index as int].pos
                    &&& is_entrance(t, cs, created[a].pos)
                }
            } by {
                assert(created.dom().contains(a));
                assert(is_node_sound(t, cs, created[a]));
                if new_ids.contains(a) {
                    let i = choose|i: int| 0 <= i < ids@.len() && ids@[i] == a;
                    assert(!before.contains_key(ids@[i]));
                    assert(tiles.contains(created[ids@[i]].pos));
                    assert(missing@.contains_key(created[a].pos));
                    initial.lemma_chunk_of(index as int, created[a].pos);
                    lemma_tiles_of_origin(
                        initial.chunks@[index as int].pos,
                        created[a].pos,
                        cs,
                        size,
                    );
                }
            }
            assert forall|a: NodeID| #[trigger] before.contains_key(a) implies {
                &&& created.contains_key(a)
                &&& created[a] == before[a]
            } by {
                assert(created.dom().contains(a));
            }
            assert forall|a: NodeID| new_ids.contains(a) implies #[trigger] created.contains_key(
                a,
            ) by {
                assert(created.dom().contains(a));
            }
        }
        if is_dirty {
            for k in 0..ids.len()
                invariant
                    index < self.chunks@.len(),
                    self.chunks@.len() == initial.chunks@.len(),
                    self.chunks@[index as int].nodes.wf(),
                    self.chunks@[index as int].nodes@.dom() =~= members.union(
                        ids@.take(k as int).to_set(),
                    ),
                    self.chunks@[index as int].pos == initial.chunks@[index as int].pos,
                    self.chunks@[index as int].size == initial.chunks@[index as int].size,
                    self.chunks@[index as int].sides == initial.chunks@[index as int].sides,
                    forall|i: int|
                        0 <= i < self.chunks@.len() && i != index ==> #[trigger] self.chunks@[i]
                            == initial.chunks@[i],
                    self.nodes@ == created,
                    self.nodes.wf(),
                    self.size() == initial.size(),
                    self.surroundings() == initial.surroundings(),
                    self.settings() == initial.settings(),
                    self.terrain() == initial.terrain(),
                    self.num_chunks == initial.num_chunks,
            {
                let id: NodeID = ids[k];
                self.chunks[index].nodes.insert(id, ());
                proof {
                    lemma_taken_set(ids@, k as int);
                }
            }
            assert(ids@.take(ids@.len() as int) =~= ids@);
        } else {
            for k in 0..ids.len()
                invariant
                    changed.wf(),
                    changed@.dom() =~= changed_before.union(ids@.take(k as int).to_set()),
            {
                changed.insert(ids[k], ());
                proof {
                    lemma_taken_set(ids@, k as int);
                }
            }
            proof {
                assert(ids@.take(ids@.len() as int) =~= ids@);
                let all = members.union(new_ids);
                assert forall|a: NodeID| #[trigger] all.contains(a) implies created.contains_key(a)
                    && r.contains(created[a].pos) by {
                    if members.contains(a) {
                        assert(initial.chunks@[index as int].nodes@.contains_key(a));
                        assert(before.contains_key(a));
                    } else {
                        assert(created.contains_key(a));
                    }
                }
                assert forall|a: NodeID, b: NodeID|
                    members.contains(a) && members.contains(b) implies #[trigger] is_linked_inside(
                    t,
                    cs,
                    created,
                    a,
                    b,
                ) by {
                    assert(initial.chunks@[index as int].nodes@.contains_key(a));
                    assert(initial.chunks@[index as int].nodes@.contains_key(b));
                    assert(before.contains_key(a) && before.contains_key(b));
                    initial.lemma_chunk_of(index as int, before[a].pos);
                    lemma_tiles_of_origin(
                        initial.chunks@[index as int].pos,
                        before[a].pos,
                        cs,
                        size,
                    );
                    assert(is_linked_inside(t, cs, before, a, b));
                }
                assert forall|i: int| 0 <= i < ids@.len() implies !members.contains(
                    #[trigger] ids@[i],
                ) by {
                    if members.contains(ids@[i]) {
                        assert(initial.chunks@[index as int].nodes@.contains_key(ids@[i]));
                        assert(before.contains_key(ids@[i]));
                    }
                }
            }
            self.chunks[index].add_nodes(
                ids.as_slice(),
                get_cost,
                &self.neighborhood,
                &mut self.nodes,
                &self.config,
                Ghost(t),
            );
        }
        proof {
            let nodes = self.nodes@;
            let all = members.union(new_ids);
            assert(self.chunks@[index as int].nodes@.dom() =~= all);
            assert(self.chunks@[index as int].tiles() == r);
            assert(is_extended(created, nodes));
            assert(nodes.dom() == created.dom());
            assert forall|a: NodeID| #[trigger] nodes.contains_key(a) implies {
                &&& created.contains_key(a)
                &&& nodes[a].pos == created[a].pos
                &&& nodes[a].walk_cost == created[a].walk_cost
                &&& on_grid(nodes[a].pos, size)
            } by {
                assert(nodes.dom().contains(a));
                assert(created.contains_key(a));
            }
            // Each node belongs to the chunk it lies in.
            assert forall|i: int, id: NodeID| 0 <= i < self.chunks@.len() implies (
            #[trigger] self.chunks@[i].nodes@.contains_key(id) <==> nodes.contains_key(id)
                && self.chunks@[i].tiles().contains(nodes[id].pos)) by {
                assert(initial.chunks@[i].nodes@.contains_key(id) <==> before.contains_key(id)
                    && initial.chunks@[i].tiles().contains(before[id].pos));
                assert(self.chunks@[i].tiles() == initial.chunks@[i].tiles());
                assert(nodes.dom().contains(id) <==> created.dom().contains(id));
                assert(self.chunks@[index as int].nodes@.contains_key(id) <==> all.contains(id)) by {
                    assert(self.chunks@[index as int].nodes@.dom().contains(id) <==> all.contains(
                        id,
                    ));
                }
                if created.contains_key(id) {
                    initial.lemma_chunk_of(i, created[id].pos);
                    initial.lemma_chunk_of(index as int, created[id].pos);
                }
                if i == index {
                    if members.contains(id) {
                        assert(initial.chunks@[index as int].nodes@.contains_key(id));
                    }
                } else {
                    assert(self.chunks@[i] == initial.chunks@[i]);
                }
            }
            assert forall|i: int| 0 <= i < self.chunks@.len() implies {
                &&& (#[trigger] self.chunks@[i]).wf(cs, size)
                &&& self.chunks@[i].pos == chunk_pos(i, cs, size)
            } by {
                assert(initial.chunks@[i].wf(cs, size));
            }
            assert(self.wf());
            assert forall|a: NodeID| #[trigger] all.contains(a) <==> created.contains_key(a)
                && chunk_origin(created[a].pos, cs, size)
                == initial.chunks@[index as int].pos by {
                assert(initial.chunks@[index as int].nodes@.contains_key(a)
                    <==> before.contains_key(a) && r.contains(before[a].pos));
                if new_ids.contains(a) {
                    assert(created.contains_key(a));
                }
                if created.contains_key(a) {
                    initial.lemma_chunk_of(index as int, created[a].pos);
                    lemma_tiles_of_origin(
                        initial.chunks@[index as int].pos,
                        created[a].pos,
                        cs,
                        size,
                    );
                }
            }
            lemma_missing_added(
                t,
                cs,
                known,
                base,
                before,
                created,
                nodes,
                dirty,
                changed_before,
                changed@.dom(),
                new_ids,
                all,
                initial.chunks@[index as int].pos,
            );
            assert forall|p: Point| #[trigger] missing@.contains_key(p) implies has_node_at(
                nodes,
                p,
            ) by {
                assert(tiles.contains(p));
                let i = choose|i: int| 0 <= i < ids@.len() && created[#[trigger] ids@[i]].pos == p;
                assert(new_ids.contains(ids@[i]));
                assert(created.contains_key(ids@[i]));
                assert(nodes.dom().contains(ids@[i]));
                assert(nodes.contains_key(ids@[i]) && nodes[ids@[i]].pos == p);
            }
        }
    }
}

pub proof fn lemma_taken_set<A>(s: Seq<A>, k: int)
    requires
        0 <= k < s.len(),
    ensures
        s.take(k + 1).to_set() == s.take(k).to_set().insert(s[k]),
{
    let (longer, shorter) = (s.take(k + 1), s.take(k));
    assert(longer[k] == s[k]);
    assert forall|x: A| shorter.contains(x) implies longer.contains(x) by {
        let j = choose|j: int| 0 <= j < shorter.len() && shorter[j] == x;
        assert(longer[j] == x);
    }
    assert forall|x: A| longer.contains(x) && x != s[k] implies shorter.contains(x) by {
        let j = choose|j: int| 0 <= j < longer.len() && longer[j] == x;
        assert(shorter[j] == x);
    }
    assert(longer.to_set() =~= shorter.to_set().insert(s[k]));
}

/// Creating nodes in a chunk keeps what holds while nodes are created.
proof fn lemma_missing_added(
    t: Terrain,
    chunk_size: usize,
    known: bool,
    base: Nodes,
    before: Nodes,
    created: Nodes,
    nodes: Nodes,
    dirty: Set<Point>,
    changed_before: Set<NodeID>,
    changed: Set<NodeID>,
    new_ids: Set<NodeID>,
    all: Set<NodeID>,
    cp: Point,
)
    requires
        t.wf(),
        0 < chunk_size,
        is_origin(cp, chunk_size, t.size),
        is_renewing(t, chunk_size, known, base, before, dirty, changed_before),
        forall|a: NodeID| #[trigger]
            before.contains_key(a) ==> created.contains_key(a) && created[a] == before[a],
        forall|a: NodeID| #[trigger]
            created.contains_key(a) ==> {
                &&& on_grid(created[a].pos, t.size)
                &&& new_ids.contains(a) <==> !before.contains_key(a)
                &&& new_ids.contains(a) ==> created[a].edges == Map::<NodeID, PathSegment>::empty()
                    && chunk_origin(created[a].pos, chunk_size, t.size) == cp && is_entrance(
                    t,
                    chunk_size,
                    created[a].pos,
                )
            },
        forall|a: NodeID| #[trigger] new_ids.contains(a) ==> created.contains_key(a),
        forall|a: NodeID| #[trigger]
            all.contains(a) <==> created.contains_key(a) && chunk_origin(
                created[a].pos,
                chunk_size,
                t.size,
            ) == cp,
        are_nodes_sound(t, chunk_size, nodes),
        are_links_sound(t, chunk_size, known, nodes),
        is_extended(created, nodes),
        if dirty.contains(cp) {
            nodes == created && changed == changed_before
        } else {
            &&& changed == changed_before.union(new_ids)
            &&& is_unchanged_outside(created, nodes, all)
            &&& has_new_links_within(created, nodes, all)
            &&& are_linked_inside(t, chunk_size, nodes, all)
        },
    ensures
        is_renewing(t, chunk_size, known, base, nodes, dirty, changed),
        is_grown(before, nodes),
{
    assert forall|a: NodeID| #[trigger] nodes.contains_key(a) implies {
        &&& created.contains_key(a)
        &&& nodes[a].pos == created[a].pos
        &&& nodes[a].walk_cost == created[a].walk_cost
    } by {
        assert(nodes.dom().contains(a));
        assert(created.contains_key(a));
    }
    assert forall|a: NodeID| #[trigger] created.contains_key(a) implies nodes.contains_key(a) by {
        assert(created.dom().contains(a));
    }
    assert forall|a: NodeID, b: NodeID|
        nodes.contains_key(a) && nodes.contains_key(b) && !is_in_dirty(
            dirty,
            nodes[a].pos,
            chunk_size,
            t.size,
        ) implies #[trigger] is_linked_inside(t, chunk_size, nodes, a, b) by {
        let (p, q) = (created[a].pos, created[b].pos);
        if in_same_chunk(t, chunk_size, nodes[a], nodes[b]) {
            if chunk_origin(p, chunk_size, t.size) == cp {
                assert(all.contains(a) && all.contains(b));
            } else {
                assert(before.contains_key(a) && before.contains_key(b));
                assert(is_linked_inside(t, chunk_size, before, a, b));
                if nodes != created {
                    lemma_still_linked(t, chunk_size, created, nodes, a, b);
                }
            }
        }
    }
    assert forall|a: NodeID, b: NodeID|
        nodes.contains_key(a) && is_in_dirty(
            dirty,
            nodes[a].pos,
            chunk_size,
            t.size,
        ) implies !#[trigger] nodes[a].edges.contains_key(b) by {
        if before.contains_key(a) {
            assert(!before[a].edges.contains_key(b));
        }
        if !dirty.contains(cp) {
            assert(!all.contains(a));
            assert(nodes[a] == created[a]);
        }
    }
    assert forall|a: NodeID| #[trigger] changed.contains(a) <==> nodes.contains_key(a)
        && !base.contains_key(a) && !is_in_dirty(dirty, nodes[a].pos, chunk_size, t.size) by {
        if before.contains_key(a) {
            assert(changed_before.contains(a) <==> !base.contains_key(a) && !is_in_dirty(
                dirty,
                before[a].pos,
                chunk_size,
                t.size,
            ));
        } else {
            assert(!changed_before.contains(a));
        }
        if base.contains_key(a) {
            assert(before.contains_key(a));
        }
        if new_ids.contains(a) {
            assert(created.contains_key(a));
        }
    }
    assert forall|a: NodeID, b: NodeID|
        changed.contains(a) && #[trigger] nodes[a].edges.contains_key(b) implies in_same_chunk(
        t,
        chunk_size,
        nodes[a],
        nodes[b],
    ) by {
        assert(nodes.contains_key(a));
        assert(nodes.contains_key(b));
        if created[a].edges.contains_key(b) {
            assert(before.contains_key(a));
            assert(changed_before.contains(a));
            assert(before[a].edges.contains_key(b));
            assert(before.contains_key(b));
        } else {
            assert(all.contains(a) && all.contains(b));
            lemma_origin(nodes[a].pos, chunk_size, t.size);
            lemma_origin(nodes[b].pos, chunk_size, t.size);
        }
    }
    assert forall|a: NodeID| #[trigger] before.contains_key(a) implies {
        &&& nodes.contains_key(a)
        &&& nodes[a].pos == before[a].pos
        &&& nodes[a].walk_cost == before[a].walk_cost
        &&& forall|b: NodeID| #[trigger]
            before[a].edges.contains_key(b) ==> nodes[a].edges.contains_key(b)
    } by {
        assert(created.contains_key(a));
        assert forall|b: NodeID| #[trigger] before[a].edges.contains_key(
            b,
        ) implies nodes[a].edges.contains_key(b) by {
            assert(created[a].edges.contains_key(b));
        }
    }
    assert forall|a: NodeID| #[trigger] base.contains_key(a) implies {
        &&& nodes.contains_key(a)
        &&& nodes[a].pos == base[a].pos
        &&& nodes[a].walk_cost == base[a].walk_cost
        &&& forall|b: NodeID| #[trigger]
            base[a].edges.contains_key(b) ==> nodes[a].edges.contains_key(b)
    } by {
        assert(before.contains_key(a));
        assert forall|b: NodeID| #[trigger] base[a].edges.contains_key(
            b,
        ) implies nodes[a].edges.contains_key(b) by {
            assert(before[a].edges.contains_key(b));
        }
    }
}

} // verus!
