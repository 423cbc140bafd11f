//! Connecting the nodes of changed chunks anew.

use vstd::prelude::*;

use super::chunk::{
    are_linked_inside, are_links_of, are_nodes_within, has_new_links_within, is_link_of,
    is_unchanged_outside, Chunk,
};
use super::connect::{has_link_between, is_between, is_link_between, lemma_still_linked, Link};
use super::entrance::{is_entrance, is_entrance_to};
use super::index_set::{index_set_contents, IndexSet};
use super::layout::{chunk_index, chunk_pos, region_of};
use super::limits::fits;
use super::links::{
    are_links_sound, are_nodes_sound, has_entrances, has_node_at, in_same_chunk, is_complete_inside,
    is_extended, is_linked_across, is_linked_inside, is_node_sound, lemma_extended_twice, Nodes,
};
use super::parallel::map_parallel;
use super::renew::{chunk_origin, is_justified, is_origin, lemma_origin, renew_at, Sides};
use super::update::{
    has_links_across, has_old_entrances, is_among, is_grown, is_in_dirty, is_prepared,
    is_renewed_entrance, is_renewing, lemma_among_next, lemma_tiles_of_origin,
};
use super::PathCache;
use crate::dir::Dir;
use crate::graph::NodeList;
use crate::key_map::{NodeIDSet, PointMap, PointSet};
use crate::neighbors::{on_grid, Neighborhood};
use crate::terrain::{is_cost_fn, is_ground, lemma_ground_wf, lemma_shared_cost_fn, Terrain};
use crate::{NodeID, Point};

verus! {

/// A node stays where it is.
proof fn lemma_node_stays(before: Nodes, after: Nodes, p: Point)
    requires
        is_grown(before, after),
        has_node_at(before, p),
    ensures
        has_node_at(after, p),
{
    let a = choose|a: NodeID| #[trigger] before.contains_key(a) && before[a].pos == p;
    assert(after.contains_key(a) && after[a].pos == p);
}

/// The connections in the dirty chunks are being created anew: those of the first ones are,
/// those of the others are not yet.
spec fn is_reconnecting<V>(
    t: Terrain,
    chunk_size: usize,
    known: bool,
    before: Nodes,
    nodes: Nodes,
    dirty: Set<Point>,
    entries: Seq<(Point, V)>,
    n: int,
) -> bool {
    &&& are_nodes_sound(t, chunk_size, nodes)
    &&& are_links_sound(t, chunk_size, known, nodes)
    &&& is_extended(before, nodes)
    &&& forall|a: NodeID, b: NodeID|
        nodes.contains_key(a) && nodes.contains_key(b) && (!is_in_dirty(
            dirty,
            nodes[a].pos,
            chunk_size,
            t.size,
        ) || is_among(entries, n, chunk_origin(nodes[a].pos, chunk_size, t.size)))
            ==> #[trigger] is_linked_inside(t, chunk_size, nodes, a, b)
    &&& forall|a: NodeID, b: NodeID|
        nodes.contains_key(a) && !is_in_dirty(dirty, nodes[a].pos, chunk_size, t.size)
            && #[trigger] nodes[a].edges.contains_key(b) ==> before[a].edges.contains_key(b)
    &&& forall|a: NodeID, b: NodeID|
        nodes.contains_key(a) && is_in_dirty(dirty, nodes[a].pos, chunk_size, t.size)
            && #[trigger] nodes[a].edges.contains_key(b) ==> in_same_chunk(
            t,
            chunk_size,
            nodes[a],
            nodes[b],
        )
}

/// The connections within the chunks are complete; nodes that may lack connections across
/// the borders are in `changed`.
pub open spec fn is_reconnected(
    t: Terrain,
    chunk_size: usize,
    known: bool,
    nodes: Nodes,
    changed: Set<NodeID>,
) -> bool {
    &&& are_nodes_sound(t, chunk_size, nodes)
    &&& are_links_sound(t, chunk_size, known, nodes)
    &&& is_complete_inside(t, chunk_size, nodes)
    &&& has_entrances(t, chunk_size, nodes)
    &&& forall|a: NodeID| #[trigger] changed.contains(a) ==> nodes.contains_key(a)
    &&& forall|a: NodeID, b: NodeID|
        changed.contains(a) && #[trigger] nodes[a].edges.contains_key(b) ==> in_same_chunk(
            t,
            chunk_size,
            nodes[a],
            nodes[b],
        )
    &&& forall|a: NodeID, b: NodeID|
        nodes.contains_key(a) && nodes.contains_key(b) && !changed.contains(a)
            && !changed.contains(b) ==> #[trigger] is_linked_across(t, chunk_size, nodes, a, b)
}

/// The chunks have been renewed and reconnected.
proof fn lemma_reconnected<V>(
    t: Terrain,
    chunk_size: usize,
    known: bool,
    base: Nodes,
    before: Nodes,
    nodes: Nodes,
    dirty: Set<Point>,
    changed_before: Set<NodeID>,
    changed: Set<NodeID>,
    entries: Seq<(Point, V)>,
)
    requires
        is_renewing(t, chunk_size, known, base, before, dirty, changed_before),
        has_links_across(t, chunk_size, base, dirty),
        has_entrances(t, chunk_size, before),
        is_reconnecting(
            t,
            chunk_size,
            known,
            before,
            nodes,
            dirty,
            entries,
            entries.len() as int,
        ),
        forall|cp: Point| #[trigger]
            dirty.contains(cp) ==> is_among(entries, entries.len() as int, cp),
        forall|a: NodeID| #[trigger]
            changed.contains(a) <==> changed_before.contains(a) || (nodes.contains_key(a)
                && is_in_dirty(dirty, nodes[a].pos, chunk_size, t.size)),
    ensures
        is_reconnected(t, chunk_size, known, nodes, changed),
{
    assert forall|a: NodeID| #[trigger] nodes.contains_key(a) implies {
        &&& before.contains_key(a)
        &&& nodes[a].pos == before[a].pos
    } by {
        assert(nodes.dom().contains(a));
        assert(before.contains_key(a));
    }
    assert forall|a: NodeID| #[trigger] before.contains_key(a) implies nodes.contains_key(a) by {
        assert(before.dom().contains(a));
    }
    assert forall|a: NodeID, b: NodeID|
        nodes.contains_key(a) && nodes.contains_key(b) implies #[trigger] is_linked_inside(
        t,
        chunk_size,
        nodes,
        a,
        b,
    ) by {
        let cp = chunk_origin(nodes[a].pos, chunk_size, t.size);
        if dirty.contains(cp) {
            assert(is_among(entries, entries.len() as int, cp));
        }
    }
    assert forall|p: Point| #[trigger] is_entrance(t, chunk_size, p) implies has_node_at(
        nodes,
        p,
    ) by {
        assert(has_node_at(before, p));
        let a = choose|a: NodeID| #[trigger] before.contains_key(a) && before[a].pos == p;
        assert(nodes.contains_key(a) && nodes[a].pos == p);
    }
    assert forall|a: NodeID| #[trigger] changed.contains(a) implies nodes.contains_key(a) by {
        if changed_before.contains(a) {
            assert(before.contains_key(a));
        }
    }
    assert forall|a: NodeID, b: NodeID|
        changed.contains(a) && #[trigger] nodes[a].edges.contains_key(b) implies in_same_chunk(
        t,
        chunk_size,
        nodes[a],
        nodes[b],
    ) by {
        assert(nodes.contains_key(a));
        if !is_in_dirty(dirty, nodes[a].pos, chunk_size, t.size) {
            assert(changed_before.contains(a));
            assert(before[a].edges.contains_key(b));
            assert(nodes.contains_key(b));
        }
    }
    assert forall|a: NodeID, b: NodeID|
        nodes.contains_key(a) && nodes.contains_key(b) && !changed.contains(a)
            && !changed.contains(b) implies #[trigger] is_linked_across(
        t,
        chunk_size,
        nodes,
        a,
        b,
    ) by {
        assert(!changed_before.contains(a) && !changed_before.contains(b));
        assert(base.contains_key(a) && base.contains_key(b));
        assert(is_linked_across(t, chunk_size, base, a, b));
        if base[a].edges.contains_key(b) {
            assert(before[a].edges.contains_key(b));
            assert(nodes[a].edges.contains_key(b));
        }
    }
}

impl<N: Neighborhood> PathCache<N> {
    /// Creates the nodes at the sides that have changed.
    pub(super) fn renew_sides<F: FnMut(Point) -> isize>(
        &mut self,
        renew: &PointMap<Sides>,
        dirty: &PointSet,
        get_cost: &mut F,
        Ghost(tiles): Ghost<Seq<Point>>,
    ) -> (changed: NodeIDSet)
        requires
            old(self).wf(),
            is_ground(old(self).terrain(), old(self).surroundings()),
            is_cost_fn(*old(get_cost), old(self).terrain()),
            fits(
                old(self).terrain(),
                old(self).settings().chunk_size,
            ),
            renew.wf(),
            is_justified(renew@, tiles, old(self).settings().chunk_size, old(self).size()),
            is_prepared(
                old(self).terrain(),
                old(self).settings().chunk_size,
                old(self).settings().cache_paths,
                old(self).graph(),
                dirty@.dom(),
            ),
            has_old_entrances(
                old(self).terrain(),
                old(self).settings().chunk_size,
                old(self).graph(),
                renew@,
            ),
        ensures
            *final(get_cost) == *old(get_cost),
            final(self).wf(),
            final(self).is_same_frame(old(self)),
            changed.wf(),
            is_renewing(
                old(self).terrain(),
                old(self).settings().chunk_size,
                old(self).settings().cache_paths,
                old(self).graph(),
                final(self).graph(),
                dirty@.dom(),
                changed@.dom(),
            ),
            has_entrances(
                old(self).terrain(),
                old(self).settings().chunk_size,
                final(self).graph(),
            ),
    {
        let ghost t = self.terrain();
        let ghost cost_fn = *get_cost;
        let ghost initial = *self;
        let ghost base = self.nodes@;
        let ghost known = self.config.cache_paths;
        let cs: usize = self.config.chunk_size;
        let ghost size = self.size();
        let ghost entries = renew.entries();
        proof {
            renew.lemma_entries();
            self.lemma_nodes();
        }
        let mut changed: NodeIDSet = NodeIDSet::new();
        let count: usize = renew.len();
        for i in 0..count
            invariant
                self.wf(),
                self.is_same_frame(&initial),
                cs == self.config.chunk_size,
                known == self.config.cache_paths,
                size == self.size(),
                0 < cs,
                *get_cost == cost_fn,
                t == self.terrain(),
                t.size == size,
                is_ground(t, self.surroundings()),
                is_cost_fn(cost_fn, t),
                fits(t, cs),
                renew.wf(),
                is_justified(renew@, tiles, cs, size),
                entries == renew.entries(),
                count == entries.len(),
                forall|k: int|
                    0 <= k < entries.len() ==> {
                        &&& renew@.contains_key((#[trigger] entries[k]).0)
                        &&& renew@[entries[k].0] == entries[k].1
                    },
                changed.wf(),
                is_renewing(t, cs, known, base, self.nodes@, dirty@.dom(), changed@.dom()),
                forall|p: Point, dir: Dir| #[trigger]
                    is_renewed_entrance(t, cs, renew@, p, dir) && is_among(
                        entries,
                        i as int,
                        chunk_origin(p, cs, size),
                    ) ==> has_node_at(self.nodes@, p),
        {
            let entry = renew.entry_at(i);
            let cp: Point = entry.0;
            let sides: Sides = entry.1;
            assert(*entry == entries[i as int]);
            assert(is_origin(cp, cs, size));
            let index: usize = self.get_chunk_index(cp);
            let ghost previous = *self;
            proof {
                self.lemma_chunk(cp);
                self.lemma_chunk_of(index as int, cp);
                lemma_origin(self.chunks@[index as int].pos, cs, size);
                assert(self.chunks@[index as int].pos == cp);
            }
            let missing: PointSet = self.missing_entrances(index, sides, get_cost, renew, Ghost(t));
            let is_dirty: bool = dirty.contains_key(&cp);
            proof {
                assert forall|p: Point| #[trigger] missing@.contains_key(p) implies {
                    &&& self.chunks@[index as int].tiles().contains(p)
                    &&& is_entrance(t, cs, p)
                    &&& !has_node_at(self.graph(), p)
                } by {
                    let d = choose|d: Dir| #[trigger] is_renewed_entrance(t, cs, renew@, p, d);
                    assert(is_entrance_to(t, cs, p, d));
                }
            }
            self.add_missing(
                index,
                missing,
                is_dirty,
                get_cost,
                &mut changed,
                Ghost(base),
                Ghost(dirty@.dom()),
            );
            proof {
                assert forall|p: Point, dir: Dir| #[trigger]
                    is_renewed_entrance(t, cs, renew@, p, dir) && is_among(
                        entries,
                        i + 1,
                        chunk_origin(p, cs, size),
                    ) implies has_node_at(self.nodes@, p) by {
                    lemma_among_next(entries, i as int, chunk_origin(p, cs, size));
                    if has_node_at(previous.nodes@, p) {
                        lemma_node_stays(previous.nodes@, self.nodes@, p);
                    } else {
                        assert(chunk_origin(p, cs, size) == cp);
                        assert(on_grid(p, size));
                        lemma_tiles_of_origin(cp, p, cs, size);
                        assert(missing@.contains_key(p));
                    }
                }
            }
        }
        proof {
            assert forall|p: Point| #[trigger] is_entrance(t, cs, p) implies has_node_at(
                self.nodes@,
                p,
            ) by {
                let d = choose|d: Dir| #[trigger] is_entrance_to(t, cs, p, d);
                let cp = chunk_origin(p, cs, size);
                if renew_at(renew@, cp, d) is No {
                    assert(has_node_at(base, p));
                    lemma_node_stays(base, self.nodes@, p);
                } else {
                    assert(is_renewed_entrance(t, cs, renew@, p, d));
                    assert(renew@.contains_key(cp));
                    let k = choose|k: int|
                        0 <= k < entries.len() && #[trigger] entries[k] == (cp, renew@[cp]);
                    assert(entries[k].0 == cp);
                    assert(is_among(entries, count as int, cp));
                }
            }
        }
        changed
    }

    /// Adds the nodes of a chunk to a set.
    fn collect_nodes(&self, index: usize, into: &mut NodeIDSet)
        requires
            self.wf(),
            index < self.chunks@.len(),
            old(into).wf(),
        ensures
            final(into).wf(),
            final(into)@.dom() == old(into)@.dom().union(
                self.chunks@[index as int].nodes@.dom(),
            ),
    {
        let chunk: &Chunk = &self.chunks[index];
        let ghost before = into@.dom();
        let ghost listed = chunk.nodes.entries();
        proof {
            chunk.nodes.lemma_entries();
        }
        let count: usize = chunk.nodes.len();
        for i in 0..count
            invariant
                listed == chunk.nodes.entries(),
                count == listed.len(),
                into.wf(),
                forall|a: NodeID| #[trigger]
                    into@.contains_key(a) <==> before.contains(a) || (exists|k: int|
                        0 <= k < i && (#[trigger] listed[k]).0 == a),
        {
            let id: NodeID = chunk.nodes.entry_at(i).0;
            let ghost previous = into@;
            assert(listed[i as int].0 == id);
            into.insert(id, ());
            proof {
                assert forall|a: NodeID| #[trigger] into@.contains_key(a) <==> before.contains(a)
                    || (exists|k: int| 0 <= k < i + 1 && (#[trigger] listed[k]).0 == a) by {
                    if previous.contains_key(a) && !before.contains(a) {
                        let k = choose|k: int| 0 <= k < i && (#[trigger] listed[k]).0 == a;
                        assert(0 <= k < i + 1 && listed[k].0 == a);
                    }
                    if a == id {
                        assert(listed[i as int].0 == a);
                    }
                }
            }
        }
        proof {
            assert forall|a: NodeID| into@.dom().contains(a) <==> before.contains(a)
                || chunk.nodes@.dom().contains(a) by {
                if chunk.nodes@.contains_key(a) {
                    let k = choose|k: int|
                        0 <= k < listed.len() && #[trigger] listed[k] == (a, chunk.nodes@[a]);
                    assert(listed[k].0 == a);
                }
            }
            assert(into@.dom() =~= before.union(chunk.nodes@.dom()));
        }
    }
}

/// Connecting the nodes of one more dirty chunk.
proof fn lemma_chunk_reconnected<V>(
    t: Terrain,
    chunk_size: usize,
    known: bool,
    before: Nodes,
    previous: Nodes,
    nodes: Nodes,
    dirty: Set<Point>,
    entries: Seq<(Point, V)>,
    n: int,
    ids: Set<NodeID>,
)
    requires
        0 < chunk_size,
        0 <= n < entries.len(),
        dirty.contains(entries[n].0),
        is_origin(entries[n].0, chunk_size, t.size),
        is_reconnecting(t, chunk_size, known, before, previous, dirty, entries, n),
        forall|a: NodeID| #[trigger]
            ids.contains(a) <==> previous.contains_key(a) && chunk_origin(
                previous[a].pos,
                chunk_size,
                t.size,
            ) == entries[n].0,
        are_nodes_sound(t, chunk_size, nodes),
        are_links_sound(t, chunk_size, known, nodes),
        is_extended(previous, nodes),
        is_unchanged_outside(previous, nodes, ids),
        has_new_links_within(previous, nodes, ids),
        are_linked_inside(t, chunk_size, nodes, ids),
    ensures
        is_reconnecting(t, chunk_size, known, before, nodes, dirty, entries, n + 1),
{
    let cp = entries[n].0;
    lemma_extended_twice(before, previous, nodes);
    assert forall|a: NodeID| #[trigger] nodes.contains_key(a) implies {
        &&& previous.contains_key(a)
        &&& nodes[a].pos == previous[a].pos
        &&& on_grid(nodes[a].pos, t.size)
    } by {
        assert(nodes.dom().contains(a));
        assert(previous.contains_key(a));
        assert(is_node_sound(t, chunk_size, nodes[a]));
    }
    assert forall|a: NodeID, b: NodeID|
        nodes.contains_key(a) && nodes.contains_key(b) && (!is_in_dirty(
            dirty,
            nodes[a].pos,
            chunk_size,
            t.size,
        ) || is_among(
            entries,
            n + 1,
            chunk_origin(nodes[a].pos, chunk_size, t.size),
        )) implies #[trigger] is_linked_inside(t, chunk_size, nodes, a, b) by {
        let origin = chunk_origin(nodes[a].pos, chunk_size, t.size);
        lemma_among_next(entries, n, origin);
        if in_same_chunk(t, chunk_size, nodes[a], nodes[b]) {
            if origin == cp {
                assert(ids.contains(a) && ids.contains(b));
            } else {
                assert(is_linked_inside(t, chunk_size, previous, a, b));
                lemma_still_linked(t, chunk_size, previous, nodes, a, b);
            }
        }
    }
    assert forall|a: NodeID, b: NodeID|
        nodes.contains_key(a) && !is_in_dirty(dirty, nodes[a].pos, chunk_size, t.size)
            && #[trigger] nodes[a].edges.contains_key(b) implies before[a].edges.contains_key(
        b,
    ) by {
        assert(previous.contains_key(a));
        assert(!ids.contains(a));
        assert(previous[a].edges.contains_key(b));
    }
    assert forall|a: NodeID, b: NodeID|
        nodes.contains_key(a) && is_in_dirty(dirty, nodes[a].pos, chunk_size, t.size)
            && #[trigger] nodes[a].edges.contains_key(b) implies in_same_chunk(
        t,
        chunk_size,
        nodes[a],
        nodes[b],
    ) by {
        assert(nodes.contains_key(b));
        if previous[a].edges.contains_key(b) {
            assert(previous.contains_key(b));
        } else {
            assert(ids.contains(a) && ids.contains(b));
            lemma_origin(nodes[a].pos, chunk_size, t.size);
            lemma_origin(nodes[b].pos, chunk_size, t.size);
        }
    }
}

/// Nothing has been reconnected yet.
proof fn lemma_reconnecting_begins<V>(
    t: Terrain,
    chunk_size: usize,
    known: bool,
    nodes: Nodes,
    dirty: Set<Point>,
    entries: Seq<(Point, V)>,
)
    requires
        is_prepared(t, chunk_size, known, nodes, dirty),
    ensures
        is_reconnecting(t, chunk_size, known, nodes, nodes, dirty, entries, 0),
{
}

/// The changed nodes, with those of the first dirty chunks.
spec fn are_changed<V>(
    t: Terrain,
    chunk_size: usize,
    nodes: Nodes,
    changed_before: Set<NodeID>,
    changed: Set<NodeID>,
    entries: Seq<(Point, V)>,
    n: int,
) -> bool {
    forall|a: NodeID| #[trigger]
        changed.contains(a) <==> changed_before.contains(a) || (nodes.contains_key(a) && is_among(
            entries,
            n,
            chunk_origin(nodes[a].pos, chunk_size, t.size),
        ))
}

impl<N: Neighborhood> PathCache<N> {
    /// The nodes of a chunk are those whose chunk begins where it does.
    proof fn lemma_members_of(&self, index: int, cp: Point)
        requires
            self.wf(),
            is_origin(cp, self.config.chunk_size, self.size()),
            index == chunk_index(cp, self.config.chunk_size, self.size()),
            forall|a: NodeID| #[trigger]
                self.nodes@.contains_key(a) ==> on_grid(self.nodes@[a].pos, self.size()),
        ensures
            0 <= index < self.chunks@.len(),
            self.chunks@[index].pos == cp,
            forall|a: NodeID| #[trigger]
                self.chunks@[index].nodes@.dom().contains(a) <==> self.nodes@.contains_key(a)
                    && chunk_origin(
                    self.nodes@[a].pos,
                    self.config.chunk_size,
                    self.size(),
                ) == cp,
            are_nodes_within(
                self.nodes@,
                self.chunks@[index].tiles(),
                self.chunks@[index].nodes@.dom(),
            ),
    {
        let cs = self.config.chunk_size;
        self.lemma_chunk(cp);
        self.lemma_chunk_of(index, cp);
        lemma_origin(self.chunks@[index].pos, cs, self.size());
        assert forall|a: NodeID| #[trigger] self.chunks@[index].nodes@.dom().contains(a)
            <==> self.nodes@.contains_key(a) && chunk_origin(self.nodes@[a].pos, cs, self.size())
            == cp by {
            assert(self.chunks@[index].nodes@.contains_key(a) <==> self.nodes@.contains_key(a)
                && self.chunks@[index].tiles().contains(self.nodes@[a].pos));
            if self.nodes@.contains_key(a) {
                lemma_tiles_of_origin(cp, self.nodes@[a].pos, cs, self.size());
            }
        }
        assert forall|a: NodeID| #[trigger] self.chunks@[index].nodes@.dom().contains(
            a,
        ) implies self.nodes@.contains_key(a) && self.chunks@[index].tiles().contains(
            self.nodes@[a].pos,
        ) by {
            assert(self.chunks@[index].nodes@.contains_key(a));
        }
    }

    /// Connects the nodes of the dirty chunks, one chunk after the other.
    pub(super) fn reconnect<F: FnMut(Point) -> isize>(
        &mut self,
        dirty: &PointSet,
        get_cost: &mut F,
        changed: &mut NodeIDSet,
        Ghost(base): Ghost<Nodes>,
    )
        requires
            old(self).wf(),
            is_ground(old(self).terrain(), old(self).surroundings()),
            is_cost_fn(*old(get_cost), old(self).terrain()),
            fits(
                old(self).terrain(),
                old(self).settings().chunk_size,
            ),
            dirty.wf(),
            forall|cp: Point| #[trigger]
                dirty@.contains_key(cp) ==> is_origin(
                    cp,
                    old(self).settings().chunk_size,
                    old(self).size(),
                ),
            old(changed).wf(),
            is_renewing(
                old(self).terrain(),
                old(self).settings().chunk_size,
                old(self).settings().cache_paths,
                base,
                old(self).graph(),
                dirty@.dom(),
                old(changed)@.dom(),
            ),
            has_links_across(
                old(self).terrain(),
                old(self).settings().chunk_size,
                base,
                dirty@.dom(),
            ),
            has_entrances(
                old(self).terrain(),
                old(self).settings().chunk_size,
                old(self).graph(),
            ),
        ensures
            *final(get_cost) == *old(get_cost),
            final(self).wf(),
            final(self).is_same_frame(old(self)),
            final(changed).wf(),
            is_reconnected(
                old(self).terrain(),
                old(self).settings().chunk_size,
                old(self).settings().cache_paths,
                final(self).graph(),
                final(changed)@.dom(),
            ),
            is_extended(old(self).graph(), final(self).graph()),
    {
        let ghost t = self.terrain();
        let ghost cost_fn = *get_cost;
        let ghost initial = *self;
        let ghost before = self.nodes@;
        let ghost known = self.config.cache_paths;
        let ghost size = self.size();
        let ghost changed_before = changed@.dom();
        let ghost entries = dirty.entries();
        let cs: usize = self.config.chunk_size;
        proof {
            self.lemma_nodes();
            dirty.lemma_entries();
            lemma_ground_wf(self.terrain(), self.neighborhood);
            lemma_reconnecting_begins(t, cs, known, before, dirty@.dom(), entries);
        }
        let count: usize = dirty.len();
        for i in 0..count
            invariant
                self.wf(),
                self.is_same_frame(&initial),
                cs == self.config.chunk_size,
                known == self.config.cache_paths,
                size == self.size(),
                0 < cs,
                *get_cost == cost_fn,
                t == self.terrain(),
                t.size == size,
                t.wf(),
                is_ground(t, self.surroundings()),
                is_cost_fn(cost_fn, t),
                fits(t, cs),
                entries == dirty.entries(),
                count == entries.len(),
                forall|k: int|
                    0 <= k < entries.len() ==> {
                        &&& dirty@.dom().contains((#[trigger] entries[k]).0)
                        &&& is_origin(entries[k].0, cs, size)
                    },
                changed.wf(),
                is_reconnecting(
                    t,
                    cs,
                    known,
                    before,
                    self.nodes@,
                    dirty@.dom(),
                    entries,
                    i as int,
                ),
                are_changed(
                    t,
                    cs,
                    self.nodes@,
                    changed_before,
                    changed@.dom(),
                    entries,
                    i as int,
                ),
        {
            let cp: Point = dirty.entry_at(i).0;
            assert(entries[i as int].0 == cp);
            let index: usize = self.get_chunk_index(cp);
            let ghost previous = *self;
            let ghost ids = self.chunks@[index as int].nodes@.dom();
            let ghost changed_previous = changed@.dom();
            proof {
                assert forall|a: NodeID| #[trigger] self.nodes@.contains_key(a) implies on_grid(
                    self.nodes@[a].pos,
                    size,
                ) by {
                    assert(is_node_sound(t, cs, self.nodes@[a]));
                }
                self.lemma_members_of(index as int, cp);
            }
            self.collect_nodes(index, changed);
            let mut nodes_set: NodeIDSet = NodeIDSet::new();
            std::mem::swap(&mut nodes_set, &mut self.chunks[index].nodes);
            let ghost listed = nodes_set.entries();
            proof {
                nodes_set.lemma_entries();
            }
            let mut list: Vec<NodeID> = Vec::new();
            let node_count: usize = nodes_set.len();
            for k in 0..node_count
                invariant
                    listed == nodes_set.entries(),
                    node_count == listed.len(),
                    list@.len() == k,
                    forall|j: int| 0 <= j < k ==> #[trigger] list@[j] == listed[j].0,
            {
                list.push(nodes_set.entry_at(k).0);
            }
            proof {
                assert(list@.no_duplicates()) by {
                    assert forall|j: int, k: int|
                        0 <= j < k < list@.len() implies list@[j] != list@[k] by {
                        assert(listed[j].0 != listed[k].0);
                    }
                }
                assert forall|a: NodeID| list@.to_set().contains(a) <==> ids.contains(a) by {
                    if nodes_set@.contains_key(a) {
                        let k = choose|k: int|
                            0 <= k < listed.len() && #[trigger] listed[k] == (a, nodes_set@[a]);
                        assert(list@[k] == a);
                    }
                    if list@.contains(a) {
                        let k = choose|k: int| 0 <= k < list@.len() && list@[k] == a;
                        assert(nodes_set@.contains_key(listed[k].0));
                    }
                }
                assert(list@.to_set() =~= ids);
                assert(self.chunks@[index as int].nodes@.dom().union(list@.to_set()) =~= ids);
            }
            self.chunks[index].add_nodes(
                list.as_slice(),
                get_cost,
                &self.neighborhood,
                &mut self.nodes,
                &self.config,
                Ghost(t),
            );
            proof {
                assert(self.chunks@[index as int].nodes@.dom() =~= ids);
                assert(is_extended(previous.nodes@, self.nodes@));
                assert forall|j: int, a: NodeID| 0 <= j < self.chunks@.len() implies (
                #[trigger] self.chunks@[j].nodes@.contains_key(a) <==> self.nodes@.contains_key(a)
                    && self.chunks@[j].tiles().contains(self.nodes@[a].pos)) by {
                    assert(previous.chunks@[j].nodes@.contains_key(a)
                        <==> previous.nodes@.contains_key(a)
                        && previous.chunks@[j].tiles().contains(previous.nodes@[a].pos));
                    assert(self.nodes@.dom().contains(a) == previous.nodes@.dom().contains(a));
                    if previous.nodes@.contains_key(a) {
                        assert(self.nodes@[a].pos == previous.nodes@[a].pos);
                    }
                    assert(self.chunks@[j].tiles() == previous.chunks@[j].tiles());
                    if j == index {
                        assert(self.chunks@[j].nodes@.dom().contains(a) <==> ids.contains(a));
                    } else {
                        assert(self.chunks@[j] == previous.chunks@[j]);
                    }
                }
                assert forall|j: int| 0 <= j < self.chunks@.len() implies {
                    &&& (#[trigger] self.chunks@[j]).wf(cs, size)
                    &&& self.chunks@[j].pos == chunk_pos(j, cs, size)
                } by {
                    assert(previous.chunks@[j].wf(cs, size));
                }
                assert(self.wf());
                lemma_chunk_reconnected(
                    t,
                    cs,
                    known,
                    before,
                    previous.nodes@,
                    self.nodes@,
                    dirty@.dom(),
                    entries,
                    i as int,
                    ids,
                );
                assert forall|a: NodeID| #[trigger] changed@.dom().contains(a)
                    <==> changed_before.contains(a) || (self.nodes@.contains_key(a) && is_among(
                    entries,
                    i + 1,
                    chunk_origin(self.nodes@[a].pos, cs, size),
                )) by {
                    assert(changed_previous.contains(a) <==> changed_before.contains(a) || (
                    previous.nodes@.contains_key(a) && is_among(
                        entries,
                        i as int,
                        chunk_origin(previous.nodes@[a].pos, cs, size),
                    )));
                    assert(self.nodes@.dom().contains(a) == previous.nodes@.dom().contains(a));
                    if self.nodes@.contains_key(a) {
                        assert(previous.nodes@.contains_key(a));
                        lemma_among_next(
                            entries,
                            i as int,
                            chunk_origin(self.nodes@[a].pos, cs, size),
                        );
                    }
                }
            }
        }
        proof {
            lemma_all_among(dirty@, entries);
            lemma_reconnected(
                t,
                cs,
                known,
                base,
                before,
                self.nodes@,
                dirty@.dom(),
                changed_before,
                changed@.dom(),
                entries,
            );
        }
    }
}

proof fn lemma_all_among<V>(map: Map<Point, V>, entries: Seq<(Point, V)>)
    requires
        forall|k: Point| #[trigger]
            map.contains_key(k) ==> exists|i: int|
                0 <= i < entries.len() && #[trigger] entries[i] == (k, map[k]),
        forall|i: int| 0 <= i < entries.len() ==> map.dom().contains((#[trigger] entries[i]).0),
    ensures
        forall|k: Point| #[trigger]
            map.dom().contains(k) <==> is_among(entries, entries.len() as int, k),
{
    assert forall|k: Point| #[trigger] map.dom().contains(k) <==> is_among(
        entries,
        entries.len() as int,
        k,
    ) by {
        if map.contains_key(k) {
            let i = choose|i: int| 0 <= i < entries.len() && #[trigger] entries[i] == (k, map[k]);
            assert(entries[i].0 == k);
        }
        if is_among(entries, entries.len() as int, k) {
            let i = choose|i: int| 0 <= i < entries.len() && (#[trigger] entries[i]).0 == k;
            assert(map.dom().contains(entries[i].0));
        }
    }
}

/// The connections of a chunk that is among the given ones; no connections otherwise.
spec fn are_links_if_dirty(
    t: &Terrain,
    chunk_size: usize,
    known: bool,
    all_nodes: &NodeList,
    chunks: &Vec<Chunk>,
    indices: &IndexSet,
    i: usize,
    links: Seq<Link>,
) -> bool {
    if index_set_contents(*indices).contains(i) {
        are_links_of(t, chunk_size, known, all_nodes, &chunks@[i as int], links)
    } else {
        links.len() == 0
    }
}

/// The connection is in one of the first lists.
spec fn is_listed(lists: Seq<Vec<Link>>, n: int, link: Link) -> bool {
    exists|i: int, j: int|
        0 <= i < n && 0 <= j < lists[i]@.len() && #[trigger] lists[i]@[j] == link
}

/// Puts all connections into one list.
fn flatten(lists: Vec<Vec<Link>>) -> (all: Vec<Link>)
    ensures
        forall|k: int|
            0 <= k < all@.len() ==> is_listed(
                lists@,
                lists@.len() as int,
                #[trigger] all@[k],
            ),
        forall|i: int, j: int|
            0 <= i < lists@.len() && 0 <= j < lists@[i]@.len() ==> all@.contains(
                #[trigger] lists@[i]@[j],
            ),
{
    let ghost sources = lists@;
    let mut all: Vec<Link> = Vec::new();
    for list in iter: lists
        invariant
            iter.seq() == sources,
            forall|k: int|
                0 <= k < all@.len() ==> is_listed(sources, iter.index() as int, #[trigger] all@[k]),
            forall|i: int, j: int|
                0 <= i < iter.index() && 0 <= j < sources[i]@.len() ==> all@.contains(
                    #[trigger] sources[i]@[j],
                ),
    {
        let ghost n = iter.index() as int;
        let ghost previous = all@;
        assert(list == sources[n]);
        let ghost links = list@;
        for link in inner: list
            invariant
                inner.seq() == links,
                links == sources[n]@,
                0 <= n < sources.len(),
                all@ =~= previous + links.take(inner.index() as int),
        {
            all.push(link);
        }
        proof {
            assert(all@ =~= previous + links);
            assert forall|k: int| 0 <= k < all@.len() implies is_listed(
                sources,
                n + 1,
                #[trigger] all@[k],
            ) by {
                if k < previous.len() {
                    assert(is_listed(sources, n, previous[k]));
                    let (i, j) = choose|i: int, j: int|
                        0 <= i < n && 0 <= j < sources[i]@.len() && #[trigger] sources[i]@[j]
                            == previous[k];
                    assert(sources[i]@[j] == all@[k]);
                } else {
                    assert(sources[n]@[k - previous.len()] == all@[k]);
                }
            }
            assert forall|i: int, j: int|
                0 <= i < n + 1 && 0 <= j < sources[i]@.len() implies all@.contains(
                #[trigger] sources[i]@[j],
            ) by {
                if i < n {
                    assert(previous.contains(sources[i]@[j]));
                    let k = choose|k: int|
                        0 <= k < previous.len() && previous[k] == sources[i]@[j];
                    assert(all@[k] == sources[i]@[j]);
                } else {
                    assert(all@[previous.len() + j] == sources[i]@[j]);
                }
            }
        }
    }
    all
}

impl<N: Neighborhood + Sync> PathCache<N> {
    /// Connects the nodes of the dirty chunks, on several threads.
    pub(super) fn reconnect_parallel<F: Sync + Fn(Point) -> isize>(
        &mut self,
        dirty: &PointSet,
        get_cost: &F,
        changed: &mut NodeIDSet,
        Ghost(base): Ghost<Nodes>,
    )
        requires
            old(self).wf(),
            is_ground(old(self).terrain(), old(self).surroundings()),
            is_cost_fn(*get_cost, old(self).terrain()),
            fits(old(self).terrain(), old(self).settings().chunk_size),
            dirty.wf(),
            forall|cp: Point| #[trigger]
                dirty@.contains_key(cp) ==> is_origin(
                    cp,
                    old(self).settings().chunk_size,
                    old(self).size(),
                ),
            old(changed).wf(),
            is_renewing(
                old(self).terrain(),
                old(self).settings().chunk_size,
                old(self).settings().cache_paths,
                base,
                old(self).graph(),
                dirty@.dom(),
                old(changed)@.dom(),
            ),
            has_links_across(
                old(self).terrain(),
                old(self).settings().chunk_size,
                base,
                dirty@.dom(),
            ),
            has_entrances(
                old(self).terrain(),
                old(self).settings().chunk_size,
                old(self).graph(),
            ),
        ensures
            final(self).wf(),
            final(self).is_same_frame(old(self)),
            final(changed).wf(),
            is_reconnected(
                old(self).terrain(),
                old(self).settings().chunk_size,
                old(self).settings().cache_paths,
                final(self).graph(),
                final(changed)@.dom(),
            ),
            is_extended(old(self).graph(), final(self).graph()),
    {
        let ghost t = self.terrain();
        let ghost initial = *self;
        let ghost before = self.nodes@;
        let known: bool = self.config.cache_paths;
        let ghost size = self.size();
        let ghost changed_before = changed@.dom();
        let ghost entries = dirty.entries();
        let cs: usize = self.config.chunk_size;
        proof {
            self.lemma_nodes();
            dirty.lemma_entries();
            lemma_all_among(dirty@, entries);
            lemma_ground_wf(self.terrain(), self.neighborhood);
            lemma_shared_cost_fn(get_cost, t);
            assert forall|a: NodeID| #[trigger] before.contains_key(a) implies on_grid(
                before[a].pos,
                size,
            ) by {
                assert(is_node_sound(t, cs, before[a]));
            }
        }
        let mut indices = IndexSet::new();
        let count: usize = dirty.len();
        for i in 0..count
            invariant
                self.wf(),
                *self == initial,
                cs == self.config.chunk_size,
                size == self.size(),
                entries == dirty.entries(),
                count == entries.len(),
                forall|k: int|
                    0 <= k < entries.len() ==> is_origin((#[trigger] entries[k]).0, cs, size),
                forall|index: usize|
                    #![trigger index_set_contents(indices).contains(index)]
                    index_set_contents(indices).contains(index) <==> exists|k: int|
                        0 <= k < i && chunk_index((#[trigger] entries[k]).0, cs, size) == index,
        {
            let cp: Point = dirty.entry_at(i).0;
            assert(entries[i as int].0 == cp);
            let ghost previous = index_set_contents(indices);
            let index: usize = self.get_chunk_index(cp);
            indices.insert(index);
            proof {
                assert forall|x: usize|
                    #![trigger index_set_contents(indices).contains(x)]
                    index_set_contents(indices).contains(x) <==> exists|k: int|
                        0 <= k < i + 1 && chunk_index((#[trigger] entries[k]).0, cs, size) == x by {
                    if previous.contains(x) {
                        let k = choose|k: int|
                            0 <= k < i && chunk_index((#[trigger] entries[k]).0, cs, size) == x;
                        assert(0 <= k < i + 1 && chunk_index(entries[k].0, cs, size) == x);
                    }
                    if x == index {
                        assert(chunk_index(entries[i as int].0, cs, size) == x);
                    }
                }
            }
        }
        let chunks = &self.chunks;
        let all_nodes = &self.nodes;
        let around = &self.neighborhood;
        let dirty_indices = &indices;
        let ground: Ghost<Terrain> = self.ground;
        let total: usize = chunks.len();
        proof {
            assert forall|index: usize| #[trigger]
                index_set_contents(indices).contains(index) implies are_nodes_within(
                before,
                chunks@[index as int].tiles(),
                chunks@[index as int].nodes@.dom(),
            ) by {
                let k = choose|k: int|
                    0 <= k < count && chunk_index((#[trigger] entries[k]).0, cs, size) == index;
                self.lemma_members_of(index as int, entries[k].0);
            }
        }
        let work = |i: usize| -> (links: Vec<Link>)
            requires
                i < total,
            ensures
                are_links_if_dirty(
                    &ground@,
                    cs,
                    known,
                    all_nodes,
                    chunks,
                    dirty_indices,
                    i,
                    links@,
                ),
            {
                if dirty_indices.contains(i) {
                    let mut shared = get_cost;
                    assert(chunks@[i as int].wf(cs, size));
                    chunks[i].connect_nodes_parallel(
                        &mut shared,
                        around,
                        all_nodes,
                        known,
                        Ghost(cs),
                        ground,
                    )
                } else {
                    Vec::new()
                }
            };
        let paths: Vec<Vec<Link>> = map_parallel(total, work);
        let ghost lists = paths@;
        assert forall|i: int| 0 <= i < total implies are_links_if_dirty(
            &t,
            cs,
            known,
            &initial.nodes,
            &initial.chunks,
            &indices,
            i as usize,
            (#[trigger] lists[i])@,
        ) by {}
        let links: Vec<Link> = flatten(paths);
        let ghost all = links@;
        proof {
            assert forall|k: int| 0 <= k < all.len() implies {
                &&& is_link_between(t, cs, known, before, #[trigger] all[k])
                &&& is_in_dirty(dirty@.dom(), before[all[k].0].pos, cs, size)
                &&& in_same_chunk(t, cs, before[all[k].0], before[all[k].1])
            } by {
                assert(is_listed(lists, total as int, all[k]));
                let (i, j) = choose|i: int, j: int|
                    0 <= i < total && 0 <= j < lists[i]@.len() && #[trigger] lists[i]@[j] == all[k];
                assert(are_links_if_dirty(
                    &t,
                    cs,
                    known,
                    &initial.nodes,
                    &initial.chunks,
                    &indices,
                    i as usize,
                    lists[i]@,
                ));
                let ids = initial.chunks@[i].nodes@.dom();
                assert(is_link_of(t, cs, known, before, ids, lists[i]@[j]));
                let d = choose|d: int|
                    0 <= d < count && chunk_index((#[trigger] entries[d]).0, cs, size) == i;
                initial.lemma_members_of(i, entries[d].0);
                assert(ids.contains(all[k].0) && ids.contains(all[k].1));
                assert(dirty@.dom().contains(entries[d].0));
                lemma_origin(before[all[k].0].pos, cs, size);
                lemma_origin(before[all[k].1].pos, cs, size);
            }
        }
        self.add_links(links, Ghost(t));
        let ghost nodes = self.nodes@;
        proof {
            assert forall|a: NodeID| #[trigger] nodes.contains_key(a) implies {
                &&& before.contains_key(a)
                &&& nodes[a].pos == before[a].pos
            } by {
                assert(nodes.dom().contains(a));
                assert(before.contains_key(a));
            }
            assert forall|a: NodeID, b: NodeID|
                nodes.contains_key(a) && nodes.contains_key(b) implies #[trigger] is_linked_inside(
                t,
                cs,
                nodes,
                a,
                b,
            ) by {
                let (p, q) = (before[a].pos, before[b].pos);
                let cp = chunk_origin(p, cs, size);
                if !is_in_dirty(dirty@.dom(), p, cs, size) {
                    assert(is_linked_inside(t, cs, before, a, b));
                    lemma_still_linked(t, cs, before, nodes, a, b);
                } else if a != b && in_same_chunk(t, cs, nodes[a], nodes[b]) && t.has_path_in(
                    region_of(p, cs, size),
                    p,
                    q,
                ) {
                    assert(is_among(entries, entries.len() as int, cp));
                    let d = choose|d: int| 0 <= d < entries.len() && (#[trigger] entries[d]).0 == cp;
                    let i = chunk_index(cp, cs, size);
                    initial.lemma_members_of(i, cp);
                    initial.lemma_chunk_of(i, p);
                    lemma_origin(p, cs, size);
                    lemma_origin(q, cs, size);
                    assert(index_set_contents(indices).contains(i as usize));
                    assert(are_links_if_dirty(
                        &t,
                        cs,
                        known,
                        &initial.nodes,
                        &initial.chunks,
                        &indices,
                        i as usize,
                        lists[i]@,
                    ));
                    let ids = initial.chunks@[i].nodes@.dom();
                    assert(ids.contains(a) && ids.contains(b));
                    assert(initial.chunks@[i].tiles().contains(p)) by {
                        assert(initial.chunks@[i].nodes@.contains_key(a));
                    }
                    assert(has_link_between(lists[i]@, a, b));
                    let j = choose|j: int|
                        0 <= j < lists[i]@.len() && is_between(#[trigger] lists[i]@[j], a, b);
                    assert(all.contains(lists[i]@[j]));
                    let k = choose|k: int| 0 <= k < all.len() && all[k] == lists[i]@[j];
                    assert(nodes[all[k].0].edges.contains_key(all[k].1));
                }
            }
            assert forall|a: NodeID, b: NodeID|
                nodes.contains_key(a) && #[trigger] nodes[a].edges.contains_key(b) implies {
                &&& !is_in_dirty(dirty@.dom(), nodes[a].pos, cs, size)
                    ==> before[a].edges.contains_key(b)
                &&& is_in_dirty(dirty@.dom(), nodes[a].pos, cs, size) ==> in_same_chunk(
                    t,
                    cs,
                    nodes[a],
                    nodes[b],
                )
            } by {
                assert(nodes.contains_key(b));
                if !before[a].edges.contains_key(b) {
                    assert(has_link_between(all, a, b));
                    let k = choose|k: int| 0 <= k < all.len() && is_between(#[trigger] all[k], a, b);
                    assert(is_link_between(t, cs, known, before, all[k]));
                    lemma_origin(before[a].pos, cs, size);
                    lemma_origin(before[b].pos, cs, size);
                }
            }
            assert(is_reconnecting(
                t,
                cs,
                known,
                before,
                nodes,
                dirty@.dom(),
                entries,
                entries.len() as int,
            ));
        }
        for i in 0..count
            invariant
                self.wf(),
                self.is_same_frame(&initial),
                cs == self.config.chunk_size,
                size == self.size(),
                t.size == size,
                self.nodes@ == nodes,
                entries == dirty.entries(),
                count == entries.len(),
                forall|k: int|
                    0 <= k < entries.len() ==> is_origin((#[trigger] entries[k]).0, cs, size),
                forall|a: NodeID| #[trigger]
                    nodes.contains_key(a) ==> on_grid(nodes[a].pos, size),
                changed.wf(),
                are_changed(t, cs, nodes, changed_before, changed@.dom(), entries, i as int),
        {
            let cp: Point = dirty.entry_at(i).0;
            assert(entries[i as int].0 == cp);
            let ghost previous = changed@.dom();
            let index: usize = self.get_chunk_index(cp);
            proof {
                self.lemma_members_of(index as int, cp);
            }
            self.collect_nodes(index, changed);
            proof {
                let ids = self.chunks@[index as int].nodes@.dom();
                assert forall|a: NodeID| #[trigger] changed@.dom().contains(a)
                    <==> changed_before.contains(a) || (nodes.contains_key(a) && is_among(
                    entries,
                    i + 1,
                    chunk_origin(nodes[a].pos, cs, size),
                )) by {
                    assert(previous.contains(a) <==> changed_before.contains(a) || (
                    nodes.contains_key(a) && is_among(
                        entries,
                        i as int,
                        chunk_origin(nodes[a].pos, cs, size),
                    )));
                    assert(ids.contains(a) <==> nodes.contains_key(a) && chunk_origin(
                        nodes[a].pos,
                        cs,
                        size,
                    ) == cp);
                    if nodes.contains_key(a) {
                        lemma_among_next(entries, i as int, chunk_origin(nodes[a].pos, cs, size));
                    }
                }
            }
        }
        proof {
            lemma_reconnected(
                t,
                cs,
                known,
                base,
                before,
                nodes,
                dirty@.dom(),
                changed_before,
                changed@.dom(),
                entries,
            );
        }
    }
}

} // verus!
