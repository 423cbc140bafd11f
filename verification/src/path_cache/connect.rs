//! Connecting nodes across the borders of chunks.

use vstd::prelude::*;

use super::chunk::Chunk;
use super::entrance::lemma_step_in;
use super::layout::{lemma_region_of, region_of};
use super::limits::{fits, lemma_link_limit};
use super::links::{
    are_links_sound, are_nodes_sound, has_unique_positions, in_same_chunk, is_complete_across,
    is_complete_inside, is_extended, is_link, is_link_over, is_linked_across, is_linked_inside,
    is_node_sound, lemma_extended_twice, lemma_link_added, with_link, Nodes,
};
use super::{are_members, PathCache};
use crate::graph::is_way_back;
use crate::key_map::NodeIDSet;
use crate::neighbors::Neighborhood;
use crate::path::{Path, PathSegment};
use crate::terrain::Terrain;
use crate::{NodeID, Point};

verus! {

/// A connection to be added: the two nodes, and the path from the first to the second.
pub type Link = (NodeID, NodeID, PathSegment);

/// The path of the connection leads from the first node to the second.
pub open spec fn is_link_between(
    t: Terrain,
    chunk_size: usize,
    known: bool,
    nodes: Nodes,
    link: Link,
) -> bool {
    let (a, b, path) = link;
    &&& nodes.contains_key(a)
    &&& nodes.contains_key(b)
    &&& a != b
    &&& is_link(t, chunk_size, nodes[a].pos, nodes[b].pos, path)
    &&& path is Known == known
}

/// The path of the connection is the step from the first node to the second, which lies in
/// another chunk.
spec fn is_step_across(t: Terrain, chunk_size: usize, known: bool, nodes: Nodes, link: Link) -> bool {
    let (a, b, path) = link;
    &&& nodes.contains_key(a)
    &&& nodes.contains_key(b)
    &&& !in_same_chunk(t, chunk_size, nodes[a], nodes[b])
    &&& (t.adjacent)(nodes[a].pos, nodes[b].pos)
    &&& path.matches(seq![nodes[a].pos, nodes[b].pos])
    &&& path.total() == nodes[a].walk_cost
    &&& path is Known == known
}

/// The connection is one between the two nodes.
pub open spec fn is_between(link: Link, a: NodeID, b: NodeID) -> bool {
    (link.0 == a && link.1 == b) || (link.0 == b && link.1 == a)
}

/// One of the connections is one between the two nodes.
pub open spec fn has_link_between(links: Seq<Link>, a: NodeID, b: NodeID) -> bool {
    exists|k: int| 0 <= k < links.len() && is_between(#[trigger] links[k], a, b)
}

pub proof fn lemma_has_link_in_longer(links: Seq<Link>, longer: Seq<Link>, a: NodeID, b: NodeID)
    requires
        has_link_between(links, a, b),
        links.is_prefix_of(longer),
    ensures
        has_link_between(longer, a, b),
{
    let k = choose|k: int| 0 <= k < links.len() && is_between(#[trigger] links[k], a, b);
    assert(longer[k] == links[k]);
}

/// Nodes keep their chunks when they are connected.
pub proof fn lemma_members_kept(chunks: Seq<Chunk>, before: Nodes, after: Nodes)
    requires
        are_members(chunks, before),
        is_extended(before, after),
    ensures
        are_members(chunks, after),
{
    assert forall|i: int, id: NodeID| 0 <= i < chunks.len() implies (
    #[trigger] chunks[i].nodes@.contains_key(id) <==> after.contains_key(id)
        && chunks[i].tiles().contains(after[id].pos)) by {
        assert(after.dom().contains(id) == before.dom().contains(id));
        if before.contains_key(id) {
            assert(after[id].pos == before[id].pos);
        }
    }
}

/// What holds within the chunks still holds after more connections.
pub proof fn lemma_still_linked(
    t: Terrain,
    chunk_size: usize,
    before: Nodes,
    after: Nodes,
    a: NodeID,
    b: NodeID,
)
    requires
        is_extended(before, after),
        before.contains_key(a),
        before.contains_key(b),
    ensures
        is_linked_inside(t, chunk_size, before, a, b) ==> is_linked_inside(
            t,
            chunk_size,
            after,
            a,
            b,
        ),
        is_linked_across(t, chunk_size, before, a, b) ==> is_linked_across(
            t,
            chunk_size,
            after,
            a,
            b,
        ),
{
}

impl<N: Neighborhood> PathCache<N> {
    /// Collects the connections of a node to nodes next to it in other chunks, except for
    /// nodes that were `seen`.
    fn collect_links(
        &self,
        id: NodeID,
        seen: &NodeIDSet,
        target: &mut Vec<Point>,
        new_paths: &mut Vec<Link>,
        Ghost(t): Ghost<Terrain>,
    )
        requires
            self.wf(),
            t.wf(),
            t.size == self.size(),
            forall|a: Point, b: Point| #[trigger]
                (t.adjacent)(a, b) == self.surroundings().adjacent(a, b),
            are_nodes_sound(t, self.settings().chunk_size, self.graph()),
            is_complete_inside(t, self.settings().chunk_size, self.graph()),
            self.graph().contains_key(id),
            forall|b: NodeID| #[trigger]
                self.graph()[id].edges.contains_key(b) ==> self.graph().contains_key(b)
                    && in_same_chunk(
                    t,
                    self.settings().chunk_size,
                    self.graph()[id],
                    self.graph()[b],
                ),
            forall|k: int|
                0 <= k < old(new_paths)@.len() ==> is_step_across(
                    t,
                    self.settings().chunk_size,
                    self.settings().cache_paths,
                    self.graph(),
                    #[trigger] old(new_paths)@[k],
                ),
        ensures
            old(new_paths)@.is_prefix_of(final(new_paths)@),
            forall|k: int|
                0 <= k < final(new_paths)@.len() ==> is_step_across(
                    t,
                    self.settings().chunk_size,
                    self.settings().cache_paths,
                    self.graph(),
                    #[trigger] final(new_paths)@[k],
                ),
            forall|b: NodeID| #[trigger]
                self.graph().contains_key(b) && !in_same_chunk(
                    t,
                    self.settings().chunk_size,
                    self.graph()[id],
                    self.graph()[b],
                ) && (t.adjacent)(self.graph()[id].pos, self.graph()[b].pos)
                    && !seen@.contains_key(b) ==> has_link_between(final(new_paths)@, id, b),
    {
        let cs: usize = self.config.chunk_size;
        let ghost nodes = self.nodes@;
        let ghost before = new_paths@;
        let ghost known = self.config.cache_paths;
        let node = self.nodes.get(id);
        proof {
            self.nodes.lemma_positions();
            assert(is_node_sound(t, cs, nodes[id]));
        }
        target.clear();
        self.neighborhood.get_all_neighbors(node.pos, target);
        let ghost around = target@;
        for i in 0..target.len()
            invariant
                self.wf(),
                cs == self.config.chunk_size,
                known == self.config.cache_paths,
                t.wf(),
                t.size == self.size(),
                nodes == self.nodes@,
                node@ == nodes[id],
                node.edges.wf(),
                nodes.contains_key(id),
                has_unique_positions(nodes),
                are_nodes_sound(t, cs, nodes),
                is_complete_inside(t, cs, nodes),
                forall|b: NodeID| #[trigger]
                    nodes[id].edges.contains_key(b) ==> nodes.contains_key(b) && in_same_chunk(
                        t,
                        cs,
                        nodes[id],
                        nodes[b],
                    ),
                target@ == around,
                forall|k: int|
                    0 <= k < around.len() ==> (t.adjacent)(nodes[id].pos, #[trigger] around[k]),
                before.is_prefix_of(new_paths@),
                forall|k: int|
                    0 <= k < new_paths@.len() ==> is_step_across(
                        t,
                        cs,
                        known,
                        nodes,
                        #[trigger] new_paths@[k],
                    ),
                forall|k: int, b: NodeID|
                    0 <= k < i && #[trigger] nodes.contains_key(b) && nodes[b].pos
                        == #[trigger] around[k] && !in_same_chunk(t, cs, nodes[id], nodes[b])
                        && !seen@.contains_key(b) ==> has_link_between(new_paths@, id, b),
        {
            let other_pos: Point = target[i];
            let ghost previous = new_paths@;
            assert((t.adjacent)(nodes[id].pos, around[i as int]));
            let found: Option<NodeID> = self.node_at(other_pos);
            if let Some(other_id) = found {
                if !node.edges.contains_key(&other_id) && !seen.contains_key(&other_id) {
                    proof {
                        assert(is_node_sound(t, cs, nodes[id]));
                        assert(is_node_sound(t, cs, nodes[other_id]));
                        assert(id != other_id);
                        assert(is_linked_inside(t, cs, nodes, id, other_id));
                        let r = region_of(nodes[id].pos, cs, t.size);
                        if in_same_chunk(t, cs, nodes[id], nodes[other_id]) {
                            lemma_region_of(nodes[id].pos, cs, t.size);
                            lemma_region_of(other_pos, cs, t.size);
                            lemma_step_in(t, r, nodes[id].pos, other_pos);
                        }
                    }
                    let step: [Point; 2] = [node.pos, other_pos];
                    let path = PathSegment::new(
                        Path::from_slice(&step, node.walk_cost),
                        self.config.cache_paths,
                    );
                    proof {
                        assert(step@ =~= seq![nodes[id].pos, nodes[other_id].pos]);
                        assert(is_step_across(t, cs, known, nodes, (id, other_id, path)));
                    }
                    new_paths.push((id, other_id, path));
                    proof {
                        assert(is_between(new_paths@[previous.len() as int], id, other_id));
                        assert(has_link_between(new_paths@, id, other_id));
                    }
                }
            }
            proof {
                assert forall|k: int, b: NodeID|
                    0 <= k < i + 1 && #[trigger] nodes.contains_key(b) && nodes[b].pos
                        == #[trigger] around[k] && !in_same_chunk(t, cs, nodes[id], nodes[b])
                        && !seen@.contains_key(b) implies has_link_between(
                    new_paths@,
                    id,
                    b,
                ) by {
                    if k < i {
                        assert(has_link_between(previous, id, b));
                        lemma_has_link_in_longer(previous, new_paths@, id, b);
                    } else {
                        assert(found is Some);
                        assert(nodes.contains_key(found->0));
                        assert(b == found->0);
                        assert(!nodes[id].edges.contains_key(b));
                    }
                }
                assert(before.is_prefix_of(new_paths@));
            }
        }
        proof {
            assert forall|b: NodeID| #[trigger]
                nodes.contains_key(b) && !in_same_chunk(t, cs, nodes[id], nodes[b]) && (t.adjacent)(
                    nodes[id].pos,
                    nodes[b].pos,
                ) && !seen@.contains_key(b) implies has_link_between(new_paths@, id, b) by {
                let q = nodes[b].pos;
                assert(self.neighborhood.adjacent(nodes[id].pos, q));
                assert(around.skip(0) =~= around);
                let k = choose|k: int| 0 <= k < around.len() && around[k] == q;
                assert(around[k] == q);
            }
        }
    }

    /// Adds connections.
    pub(super) fn add_links(&mut self, links: Vec<Link>, Ghost(t): Ghost<Terrain>)
        requires
            old(self).wf(),
            t.wf(),
            t.size == old(self).size(),
            fits(t, old(self).settings().chunk_size),
            are_nodes_sound(t, old(self).settings().chunk_size, old(self).graph()),
            are_links_sound(
                t,
                old(self).settings().chunk_size,
                old(self).settings().cache_paths,
                old(self).graph(),
            ),
            forall|k: int|
                0 <= k < links@.len() ==> is_link_between(
                    t,
                    old(self).settings().chunk_size,
                    old(self).settings().cache_paths,
                    old(self).graph(),
                    #[trigger] links@[k],
                ),
        ensures
            final(self).wf(),
            final(self).size() == old(self).size(),
            final(self).surroundings() == old(self).surroundings(),
            final(self).settings() == old(self).settings(),
            final(self).terrain() == old(self).terrain(),
            final(self).num_chunks == old(self).num_chunks,
            final(self).chunks == old(self).chunks,
            is_extended(old(self).graph(), final(self).graph()),
            are_nodes_sound(t, old(self).settings().chunk_size, final(self).graph()),
            are_links_sound(
                t,
                old(self).settings().chunk_size,
                old(self).settings().cache_paths,
                final(self).graph(),
            ),
            forall|k: int|
                0 <= k < links@.len() ==> {
                    &&& final(self).graph()[(#[trigger] links@[k]).0].edges.contains_key(
                        links@[k].1,
                    )
                    &&& final(self).graph()[links@[k].1].edges.contains_key(links@[k].0)
                },
            forall|a: NodeID, b: NodeID|
                old(self).graph().contains_key(a)
                    && #[trigger] final(self).graph()[a].edges.contains_key(b)
                    ==> old(self).graph()[a].edges.contains_key(b)
                    || has_link_between(links@, a, b),
    {
        let cs: usize = self.config.chunk_size;
        let ghost known = self.config.cache_paths;
        let ghost before = self.nodes@;
        let ghost all = links@;
        for link in iter: links
            invariant
                iter.seq() == all,
                self.size() == old(self).size(),
                self.surroundings() == old(self).surroundings(),
                self.settings() == old(self).settings(),
                self.terrain() == old(self).terrain(),
                self.num_chunks == old(self).num_chunks,
                self.chunks == old(self).chunks,
                self.wf(),
                cs == self.config.chunk_size,
                known == self.config.cache_paths,
                t.wf(),
                t.size == self.size(),
                fits(t, cs),
                are_nodes_sound(t, cs, before),
                are_nodes_sound(t, cs, self.nodes@),
                are_links_sound(t, cs, known, self.nodes@),
                is_extended(before, self.nodes@),
                forall|k: int|
                    0 <= k < all.len() ==> is_link_between(t, cs, known, before, #[trigger] all[k]),
                forall|k: int|
                    0 <= k < iter.index() ==> {
                        &&& self.nodes@[(#[trigger] all[k]).0].edges.contains_key(all[k].1)
                        &&& self.nodes@[all[k].1].edges.contains_key(all[k].0)
                    },
                forall|a: NodeID, b: NodeID|
                    before.contains_key(a) && #[trigger] self.nodes@[a].edges.contains_key(b)
                        ==> before[a].edges.contains_key(b) || has_link_between(all, a, b),
        {
            let ghost n = iter.index() as int;
            let ghost previous = self.nodes@;
            assert(link == all[n]);
            let (id, other_id, path) = link;
            let ghost s = choose|s: Seq<Point>| #[trigger]
                is_link_over(t, cs, before[id].pos, before[other_id].pos, path, s);
            proof {
                assert(is_link_between(t, cs, known, before, all[n]));
                assert(before.dom().contains(id) && before.dom().contains(other_id));
                assert(is_node_sound(t, cs, before[id]));
                assert(is_node_sound(t, cs, before[other_id]));
                assert(is_link_over(t, cs, before[id].pos, before[other_id].pos, path, s));
                lemma_link_limit(t, cs, before[id].pos, before[other_id].pos, path, s);
                assert(previous.contains_key(id) && previous.contains_key(other_id));
            }
            self.nodes.add_edge(id, other_id, path);
            proof {
                let back = choose|back: PathSegment|
                    {
                        &&& #[trigger] is_way_back(
                            path,
                            back,
                            previous[id].walk_cost,
                            previous[other_id].walk_cost,
                        )
                        &&& self.nodes@ == previous.insert(
                            id,
                            previous[id].with_edge(other_id, path),
                        ).insert(other_id, previous[other_id].with_edge(id, back))
                    };
                assert(self.nodes@ == with_link(previous, id, other_id, path, back));
                lemma_link_added(t, cs, known, previous, id, other_id, path, back, s);
                lemma_members_kept(self.chunks@, previous, self.nodes@);
                lemma_extended_twice(before, previous, self.nodes@);
                assert forall|k: int| 0 <= k < n + 1 implies {
                    &&& self.nodes@[(#[trigger] all[k]).0].edges.contains_key(all[k].1)
                    &&& self.nodes@[all[k].1].edges.contains_key(all[k].0)
                } by {
                    let (a, b) = (all[k].0, all[k].1);
                    assert(is_link_between(t, cs, known, before, all[k]));
                    assert(previous.dom().contains(a) && previous.dom().contains(b));
                    if k < n {
                        assert(previous[a].edges.contains_key(b));
                        assert(previous[b].edges.contains_key(a));
                    }
                }
                assert forall|a: NodeID, b: NodeID|
                    before.contains_key(a) && #[trigger] self.nodes@[a].edges.contains_key(
                        b,
                    ) implies before[a].edges.contains_key(b) || has_link_between(all, a, b) by {
                    if (a == id && b == other_id) || (a == other_id && b == id) {
                        assert(is_between(all[n], a, b));
                    } else {
                        assert(previous[a].edges.contains_key(b));
                    }
                }
            }
        }
    }

    /// Connects nodes that lie next to each other in different chunks: the given ones, or
    /// all of them.
    pub(super) fn connect_nodes(&mut self, ids: Option<NodeIDSet>, Ghost(t): Ghost<Terrain>)
        requires
            old(self).wf(),
            t.wf(),
            t.size == old(self).size(),
            fits(t, old(self).settings().chunk_size),
            forall|a: Point, b: Point| #[trigger]
                (t.adjacent)(a, b) == old(self).surroundings().adjacent(a, b),
            are_nodes_sound(t, old(self).settings().chunk_size, old(self).graph()),
            are_links_sound(
                t,
                old(self).settings().chunk_size,
                old(self).settings().cache_paths,
                old(self).graph(),
            ),
            is_complete_inside(t, old(self).settings().chunk_size, old(self).graph()),
            ids matches Some(ids) ==> {
                &&& ids.wf()
                &&& forall|a: NodeID| #[trigger]
                    ids@.contains_key(a) ==> old(self).graph().contains_key(a)
            },
            forall|a: NodeID, b: NodeID|
                (ids matches Some(ids) ==> ids@.contains_key(a)) && old(self).graph().contains_key(
                    a,
                ) && #[trigger] old(self).graph()[a].edges.contains_key(b) ==> in_same_chunk(
                    t,
                    old(self).settings().chunk_size,
                    old(self).graph()[a],
                    old(self).graph()[b],
                ),
            ids matches Some(ids) ==> forall|a: NodeID, b: NodeID|
                old(self).graph().contains_key(a) && old(self).graph().contains_key(b)
                    && !ids@.contains_key(a) && !ids@.contains_key(b)
                    ==> #[trigger] is_linked_across(
                    t,
                    old(self).settings().chunk_size,
                    old(self).graph(),
                    a,
                    b,
                ),
        ensures
            final(self).wf(),
            final(self).size() == old(self).size(),
            final(self).surroundings() == old(self).surroundings(),
            final(self).settings() == old(self).settings(),
            final(self).terrain() == old(self).terrain(),
            is_extended(old(self).graph(), final(self).graph()),
            are_nodes_sound(t, old(self).settings().chunk_size, final(self).graph()),
            are_links_sound(
                t,
                old(self).settings().chunk_size,
                old(self).settings().cache_paths,
                final(self).graph(),
            ),
            is_complete_inside(t, old(self).settings().chunk_size, final(self).graph()),
            is_complete_across(t, old(self).settings().chunk_size, final(self).graph()),
    {
        let cs: usize = self.config.chunk_size;
        let ghost known = self.config.cache_paths;
        let ghost before = self.nodes@;
        let ghost chosen = |a: NodeID|
            match ids {
                Some(ids) => ids@.contains_key(a),
                None => before.contains_key(a),
            };
        let to_connect: Vec<NodeID> = match &ids {
            Some(ids) => {
                let mut list: Vec<NodeID> = Vec::new();
                let ghost entries = ids.entries();
                let count: usize = ids.len();
                for i in 0..count
                    invariant
                        entries == ids.entries(),
                        count == entries.len(),
                        list@.len() == i,
                        forall|k: int| 0 <= k < i ==> #[trigger] list@[k] == entries[k].0,
                {
                    list.push(ids.entry_at(i).0);
                }
                proof {
                    ids.lemma_entries();
                    assert forall|a: NodeID| ids@.contains_key(a) implies #[trigger] list@.contains(
                        a,
                    ) by {
                        let k = choose|k: int|
                            0 <= k < entries.len() && #[trigger] entries[k] == (a, ids@[a]);
                        assert(list@[k] == a);
                    }
                    assert forall|k: int| 0 <= k < list@.len() implies ids@.contains_key(
                        #[trigger] list@[k],
                    ) by {
                        assert(ids@.contains_key(entries[k].0));
                    }
                }
                list
            },
            None => {
                let list: Vec<NodeID> = self.nodes.keys();
                assert forall|k: int| 0 <= k < list@.len() implies before.contains_key(
                    #[trigger] list@[k],
                ) by {
                    assert(list@.contains(list@[k]));
                }
                list
            },
        };
        let mut target: Vec<Point> = Vec::new();
        let mut new_paths: Vec<Link> = Vec::new();
        let mut seen: NodeIDSet = NodeIDSet::new();
        assert forall|k: int| 0 <= k < to_connect@.len() implies chosen(
            #[trigger] to_connect@[k],
        ) && before.contains_key(to_connect@[k]) by {}
        assert forall|a: NodeID| chosen(a) implies #[trigger] to_connect@.contains(a) by {}
        for i in 0..to_connect.len()
            invariant
                *self == *old(self),
                self.wf(),
                cs == self.config.chunk_size,
                known == self.config.cache_paths,
                before == self.nodes@,
                t.wf(),
                t.size == self.size(),
                forall|a: Point, b: Point| #[trigger]
                    (t.adjacent)(a, b) == self.surroundings().adjacent(a, b),
                are_nodes_sound(t, cs, before),
                are_links_sound(t, cs, known, before),
                is_complete_inside(t, cs, before),
                forall|a: NodeID, b: NodeID|
                    chosen(a) && before.contains_key(a) && #[trigger] before[a].edges.contains_key(
                        b,
                    ) ==> in_same_chunk(t, cs, before[a], before[b]),
                forall|k: int|
                    0 <= k < to_connect@.len() ==> chosen(#[trigger] to_connect@[k])
                        && before.contains_key(to_connect@[k]),
                seen.wf(),
                forall|a: NodeID| #[trigger]
                    seen@.contains_key(a) ==> exists|k: int|
                        0 <= k < i && #[trigger] to_connect@[k] == a,
                forall|k: int|
                    0 <= k < new_paths@.len() ==> is_step_across(
                        t,
                        cs,
                        known,
                        before,
                        #[trigger] new_paths@[k],
                    ),
                forall|k: int, b: NodeID|
                    0 <= k < i && #[trigger] before.contains_key(b) && !in_same_chunk(
                        t,
                        cs,
                        before[#[trigger] to_connect@[k]],
                        before[b],
                    ) && (t.adjacent)(before[to_connect@[k]].pos, before[b].pos)
                        ==> has_link_between(new_paths@, to_connect@[k], b),
        {
            let id: NodeID = to_connect[i];
            let ghost previous = new_paths@;
            let ghost seen_before = seen@;
            seen.insert(id, ());
            self.collect_links(id, &seen, &mut target, &mut new_paths, Ghost(t));
            proof {
                assert forall|a: NodeID| #[trigger] seen@.contains_key(a) implies exists|k: int|
                    0 <= k < i + 1 && #[trigger] to_connect@[k] == a by {
                    if seen_before.contains_key(a) {
                        let k = choose|k: int| 0 <= k < i && #[trigger] to_connect@[k] == a;
                        assert(0 <= k < i + 1 && to_connect@[k] == a);
                    } else {
                        assert(to_connect@[i as int] == a);
                    }
                }
                assert forall|k: int, b: NodeID|
                    0 <= k < i + 1 && #[trigger] before.contains_key(b) && !in_same_chunk(
                        t,
                        cs,
                        before[#[trigger] to_connect@[k]],
                        before[b],
                    ) && (t.adjacent)(
                        before[to_connect@[k]].pos,
                        before[b].pos,
                    ) implies has_link_between(new_paths@, to_connect@[k], b) by {
                    let a = to_connect@[k];
                    if k < i {
                        assert(has_link_between(previous, a, b));
                        lemma_has_link_in_longer(previous, new_paths@, a, b);
                    } else if seen@.contains_key(b) {
                        assert(b != id);
                        assert(seen_before.contains_key(b));
                        let j = choose|j: int| 0 <= j < i && #[trigger] to_connect@[j] == b;
                        assert((t.adjacent)(before[b].pos, before[a].pos));
                        assert(before.contains_key(a));
                        assert(has_link_between(previous, b, a));
                        lemma_has_link_in_longer(previous, new_paths@, b, a);
                        let l = choose|l: int|
                            0 <= l < new_paths@.len() && is_between(
                                #[trigger] new_paths@[l],
                                b,
                                a,
                            );
                        assert(is_between(new_paths@[l], a, b));
                    } else {
                        assert(self.graph().contains_key(b));
                    }
                }
            }
        }
        let ghost links = new_paths@;
        proof {
            assert forall|k: int| 0 <= k < links.len() implies is_link_between(
                t,
                cs,
                known,
                before,
                #[trigger] links[k],
            ) by {
                let (id, other_id, path) = links[k];
                assert(is_step_across(t, cs, known, before, links[k]));
                assert(is_node_sound(t, cs, before[id]));
                assert(is_node_sound(t, cs, before[other_id]));
                lemma_region_of(before[id].pos, cs, t.size);
                lemma_region_of(before[other_id].pos, cs, t.size);
                let s = seq![before[id].pos, before[other_id].pos];
                assert(is_link_over(t, cs, before[id].pos, before[other_id].pos, path, s));
            }
        }
        self.add_links(new_paths, Ghost(t));
        proof {
            let after = self.nodes@;
            assert forall|a: NodeID, b: NodeID|
                after.contains_key(a) && after.contains_key(b) implies #[trigger] is_linked_inside(
                t,
                cs,
                after,
                a,
                b,
            ) by {
                assert(after.dom().contains(a) && after.dom().contains(b));
                assert(is_linked_inside(t, cs, before, a, b));
                lemma_still_linked(t, cs, before, after, a, b);
            }
            assert forall|a: NodeID, b: NodeID|
                after.contains_key(a) && after.contains_key(b) implies #[trigger] is_linked_across(
                t,
                cs,
                after,
                a,
                b,
            ) by {
                assert(after.dom().contains(a) && after.dom().contains(b));
                assert(before.contains_key(a) && before.contains_key(b));
                if !chosen(a) && !chosen(b) {
                    assert(is_linked_across(t, cs, before, a, b));
                    lemma_still_linked(t, cs, before, after, a, b);
                } else if !in_same_chunk(t, cs, before[a], before[b]) && (t.adjacent)(
                    before[a].pos,
                    before[b].pos,
                ) {
                    assert((t.adjacent)(before[b].pos, before[a].pos));
                    let (c, d) = if chosen(a) {
                        (a, b)
                    } else {
                        (b, a)
                    };
                    assert(to_connect@.contains(c));
                    let k = choose|k: int| 0 <= k < to_connect@.len() && to_connect@[k] == c;
                    assert(to_connect@[k] == c);
                    assert(before.contains_key(d));
                    assert(has_link_between(links, c, d));
                    let l = choose|l: int| 0 <= l < links.len() && is_between(#[trigger] links[l], c, d);
                    assert(after[links[l].0].edges.contains_key(links[l].1));
                }
            }
        }
    }
}

} // verus!
