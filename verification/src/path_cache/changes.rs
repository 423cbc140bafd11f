//! Updating a cache when the costs of tiles have changed.

use vstd::prelude::*;

use super::entrance::is_entrance;
use super::layout::region_of;
use super::limits::{fits, tile_limit};
use super::links::{has_node_at, is_extended, is_node_sound, lemma_links_two_way};
use super::reconnect::is_reconnected;
use super::renew::{
    chunk_origin, is_affected, is_beside, is_justified, is_origin, is_renewed_by, lemma_origin,
    renew_at, Sides,
};
use super::update::{
    are_kept, are_others_kept, are_updated, has_links_across, has_old_entrances, is_change_of,
    is_in_dirty, is_prepared, is_renewed, is_renewed_at, is_two_way, lemma_prepared, lemma_renewed,
    lemma_updated,
};
use super::PathCache;
use crate::dir::Dir;
use crate::key_map::{NodeIDSet, PointMap, PointSet};
use crate::neighbors::{gap, on_grid, Neighborhood};
use crate::terrain::{
    cost_at, is_cost_fn, is_definite, lemma_ground_wf, lemma_shared_cost_fn, Terrain,
};
use crate::{NodeID, Point};

verus! {

/// Tiles lie next to each other as they did before the change.
proof fn lemma_wf_before(before: Terrain, after: Terrain, tiles: Seq<Point>)
    requires
        is_change_of(before, after, tiles),
        after.wf(),
    ensures
        before.wf(),
{
    assert forall|a: Point, b: Point| #[trigger] (before.adjacent)(a, b) implies {
        &&& on_grid(a, before.size)
        &&& on_grid(b, before.size)
        &&& a != b
        &&& gap(a.0, b.0) <= 1
        &&& gap(a.1, b.1) <= 1
        &&& (before.adjacent)(b, a)
    } by {
        assert((after.adjacent)(a, b));
        assert((after.adjacent)(b, a));
    }
    assert forall|a: Point, b: Point|
        on_grid(a, before.size) && on_grid(b, before.size) && gap(a.0, b.0) + gap(a.1, b.1)
            == 1 implies #[trigger] (before.adjacent)(a, b) by {
        assert((after.adjacent)(a, b));
    }
}

/// `get_cost` can be asked for every tile of the grid, and gives the same cost each time: for
/// tiles that are not among the given ones, the cost that they have had.
pub open spec fn is_changed_cost_fn<F: FnMut(Point) -> isize>(
    get_cost: F,
    before: Terrain,
    chunk_size: usize,
    tiles: Seq<Point>,
) -> bool {
    &&& is_definite(get_cost, before.size)
    &&& forall|p: Point, c: isize|
        on_grid(p, before.size) && !tiles.contains(p) && #[trigger] call_ensures(get_cost, (p,), c)
            ==> c == (before.cost)(p)
    &&& forall|p: Point, c: isize|
        on_grid(p, before.size) && tiles.contains(p) && #[trigger] call_ensures(get_cost, (p,), c)
            ==> c <= tile_limit(before.size, chunk_size)
}

/// The grid with the costs that `get_cost` gives for the tiles.
pub open spec fn changed_terrain<F: FnMut(Point) -> isize>(
    before: Terrain,
    get_cost: F,
    tiles: Seq<Point>,
) -> Terrain {
    Terrain {
        size: before.size,
        adjacent: before.adjacent,
        cost: |p: Point|
            if tiles.contains(p) {
                cost_at(get_cost, p) as int
            } else {
                (before.cost)(p)
            },
    }
}

/// The cost function is that of the changed grid.
proof fn lemma_changed<F: FnMut(Point) -> isize>(
    before: Terrain,
    get_cost: F,
    chunk_size: usize,
    tiles: Seq<Point>,
)
    requires
        is_changed_cost_fn(get_cost, before, chunk_size, tiles),
        fits(before, chunk_size),
    ensures
        is_cost_fn(get_cost, changed_terrain(before, get_cost, tiles)),
        is_change_of(before, changed_terrain(before, get_cost, tiles), tiles),
        fits(changed_terrain(before, get_cost, tiles), chunk_size),
{
}

impl<N: Neighborhood> PathCache<N> {
    /// Removes what the change of the given tiles may have made wrong; returns the chunks in
    /// which tiles have changed, and the sides that have to be looked at again.
    fn remove_changed(
        &mut self,
        tiles: &[Point],
        Ghost(before): Ghost<Terrain>,
        Ghost(after): Ghost<Terrain>,
    ) -> (noted: (PointSet, PointMap<Sides>))
        requires
            old(self).is_valid_for(before),
            is_change_of(before, after, tiles@),
            after.wf(),
            forall|i: int| 0 <= i < tiles@.len() ==> on_grid(#[trigger] tiles@[i], old(self).size()),
        ensures
            final(self).wf(),
            final(self).is_same_frame(old(self)),
            noted.0.wf(),
            forall|cp: Point| #[trigger]
                noted.0@.contains_key(cp) ==> is_origin(
                    cp,
                    old(self).settings().chunk_size,
                    old(self).size(),
                ),
            noted.1.wf(),
            is_justified(noted.1@, tiles@, old(self).settings().chunk_size, old(self).size()),
            is_prepared(
                after,
                old(self).settings().chunk_size,
                old(self).settings().cache_paths,
                final(self).graph(),
                noted.0@.dom(),
            ),
            has_links_across(
                after,
                old(self).settings().chunk_size,
                final(self).graph(),
                noted.0@.dom(),
            ),
            has_old_entrances(
                after,
                old(self).settings().chunk_size,
                final(self).graph(),
                noted.1@,
            ),
            are_kept(
                old(self).graph(),
                final(self).graph(),
                tiles@,
                old(self).settings().chunk_size,
                old(self).size(),
            ),
            are_others_kept(
                old(self).graph(),
                final(self).graph(),
                tiles@,
                old(self).settings().chunk_size,
                old(self).size(),
            ),
    {
        let ghost cs = self.config.chunk_size;
        let ghost known = self.config.cache_paths;
        let ghost size = self.size();
        let ghost nodes = self.nodes@;
        proof {
            self.lemma_nodes();
            lemma_wf_before(before, after, tiles@);
            assert forall|a: NodeID, b: NodeID|
                nodes.contains_key(a) && #[trigger] nodes[a].edges.contains_key(b) implies {
                &&& nodes.contains_key(b)
                &&& a != b
                &&& nodes[b].edges.contains_key(a)
            } by {
                lemma_links_two_way(before, cs, known, nodes, a, b);
            }
            assert(is_two_way(self.graph()));
            assert forall|a: NodeID| #[trigger] self.graph().contains_key(a) implies on_grid(
                self.graph()[a].pos,
                size,
            ) by {
                assert(is_node_sound(before, cs, nodes[a]));
            }
        }
        let (dirty, renew) = self.note_changes(tiles);
        proof {
            assert forall|cp: Point| #[trigger] dirty@.contains_key(cp) implies is_origin(
                cp,
                cs,
                size,
            ) by {
                let i = choose|i: int|
                    0 <= i < tiles@.len() && chunk_origin(#[trigger] tiles@[i], cs, size) == cp;
                lemma_origin(tiles@[i], cs, size);
            }
            assert forall|p: Point|
                on_grid(p, size) && tiles@.contains(p) implies #[trigger] is_in_dirty(
                dirty@.dom(),
                p,
                cs,
                size,
            ) by {
                let i = choose|i: int| 0 <= i < tiles@.len() && tiles@[i] == p;
                assert(chunk_origin(tiles@[i], cs, size) == chunk_origin(p, cs, size));
                assert(dirty@.contains_key(chunk_origin(p, cs, size)));
            }
        }
        self.remove_renewed(&renew);
        let ghost rest = self.nodes@;
        proof {
            assert(self.graph() == rest);
            assert forall|a: NodeID| #[trigger] self.graph().contains_key(a) implies on_grid(
                self.graph()[a].pos,
                size,
            ) by {
                assert(nodes.contains_key(a));
                assert(is_node_sound(before, cs, nodes[a]));
            }
        }
        self.clear_links(&dirty);
        proof {
            let cleared = self.nodes@;
            assert(self.graph() == cleared);
            assert forall|id: NodeID| #[trigger] rest.contains_key(id) implies cleared[id]
                == if is_in_dirty(dirty@.dom(), rest[id].pos, cs, size) {
                rest[id].without_edges()
            } else {
                rest[id]
            } by {
                assert(dirty@.dom().contains(chunk_origin(rest[id].pos, cs, size))
                    == dirty@.contains_key(chunk_origin(rest[id].pos, cs, size)));
            }
            assert forall|a: NodeID| #[trigger]
                nodes.contains_key(a) && !is_affected(tiles@, nodes[a].pos, cs, size) implies {
                &&& cleared.contains_key(a)
                &&& cleared[a].pos == nodes[a].pos
                &&& cleared[a].walk_cost == nodes[a].walk_cost
            } by {
                let p = nodes[a].pos;
                assert(is_node_sound(before, cs, nodes[a]));
                lemma_origin(p, cs, size);
                if is_renewed(renew@, p, cs, size) {
                    let dir = choose|dir: Dir| #[trigger] is_renewed_at(renew@, p, dir, cs, size);
                    let cp = chunk_origin(p, cs, size);
                    assert(!(renew_at(renew@, cp, dir) is No));
                    assert(renew@.contains_key(cp));
                    assert(is_affected(tiles@, cp, cs, size));
                    let q = choose|q: Point| #[trigger]
                        tiles@.contains(q) && is_beside(region_of(cp, cs, size), q);
                    assert(is_affected(tiles@, p, cs, size));
                }
                assert(rest.contains_key(a));
                assert(cleared.dom().contains(a));
            }
            assert forall|a: NodeID| #[trigger] nodes.contains_key(a) implies is_renewed(
                renew@,
                nodes[a].pos,
                cs,
                size,
            ) == is_renewed_by(tiles@, nodes[a].pos, cs, size) by {
                assert(is_node_sound(before, cs, nodes[a]));
                lemma_renewed(renew@, tiles@, nodes[a].pos, cs, size);
            }
            assert forall|a: NodeID| #[trigger] cleared.contains_key(a) implies {
                &&& nodes.contains_key(a)
                &&& rest.contains_key(a)
                &&& !is_renewed_by(tiles@, nodes[a].pos, cs, size)
            } by {
                assert(cleared.dom().contains(a));
                assert(rest.contains_key(a));
            }
            assert forall|a: NodeID| #[trigger]
                nodes.contains_key(a) && !is_renewed_by(tiles@, nodes[a].pos, cs, size) implies {
                &&& cleared.contains_key(a)
                &&& cleared[a].pos == nodes[a].pos
                &&& cleared[a].walk_cost == nodes[a].walk_cost
            } by {
                assert(rest.contains_key(a));
                assert(cleared.dom().contains(a));
            }
            lemma_prepared(
                before,
                after,
                tiles@,
                renew@,
                dirty@.dom(),
                cs,
                known,
                nodes,
                rest,
                cleared,
            );
        }
        (dirty, renew)
    }

    /// Same as [`tiles_changed`](PathCache::tiles_changed), but on a single thread, for a
    /// cost function that cannot be shared.
    pub fn tiles_changed_with_fn_mut<F: FnMut(Point) -> isize>(
        &mut self,
        tiles: &[Point],
        get_cost: F,
    )
        requires
            old(self).is_valid(),
            forall|i: int| 0 <= i < tiles@.len() ==> on_grid(#[trigger] tiles@[i], old(self).size()),
            is_changed_cost_fn(
                get_cost,
                old(self).terrain(),
                old(self).settings().chunk_size,
                tiles@,
            ),
        ensures
            final(self).is_valid(),
            final(self).terrain() == changed_terrain(old(self).terrain(), get_cost, tiles@),
            is_change_of(old(self).terrain(), final(self).terrain(), tiles@),
            is_cost_fn(get_cost, final(self).terrain()),
            final(self).size() == old(self).size(),
            final(self).surroundings() == old(self).surroundings(),
            final(self).settings() == old(self).settings(),
            are_others_kept(
                old(self).graph(),
                final(self).graph(),
                tiles@,
                old(self).settings().chunk_size,
                old(self).size(),
            ),
            are_updated(
                final(self).terrain(),
                old(self).settings().chunk_size,
                old(self).graph(),
                final(self).graph(),
                tiles@,
            ),
    {
        let mut get_cost = get_cost;
        let ghost before = self.terrain();
        let ghost initial = self.graph();
        let ghost t = changed_terrain(before, get_cost, tiles@);
        proof {
            lemma_changed(before, get_cost, self.config.chunk_size, tiles@);
            lemma_ground_wf(t, self.neighborhood);
        }
        self.ground = Ghost(t);
        let (dirty, renew) = self.remove_changed(tiles, Ghost(before), Ghost(t));
        let ghost base = self.nodes@;
        let mut changed: NodeIDSet = self.renew_sides(&renew, &dirty, &mut get_cost, Ghost(tiles@));
        let ghost renewed = self.nodes@;
        let ghost created = changed@.dom();
        self.reconnect(&dirty, &mut get_cost, &mut changed, Ghost(base));
        let ghost reconnected = self.nodes@;
        self.finish_change(changed, Ghost(t));
        proof {
            lemma_updated(
                t,
                self.config.chunk_size,
                self.config.cache_paths,
                initial,
                base,
                renewed,
                reconnected,
                self.nodes@,
                tiles@,
                dirty@.dom(),
                created,
            );
        }
    }

    /// Connects the changed nodes across the borders.
    fn finish_change(&mut self, changed: NodeIDSet, Ghost(t): Ghost<Terrain>)
        requires
            old(self).wf(),
            t.wf(),
            t.size == old(self).size(),
            fits(t, old(self).settings().chunk_size),
            forall|a: Point, b: Point| #[trigger]
                (t.adjacent)(a, b) == old(self).surroundings().adjacent(a, b),
            changed.wf(),
            is_reconnected(
                t,
                old(self).settings().chunk_size,
                old(self).settings().cache_paths,
                old(self).graph(),
                changed@.dom(),
            ),
        ensures
            final(self).is_valid_for(t),
            final(self).terrain() == old(self).terrain(),
            final(self).size() == old(self).size(),
            final(self).surroundings() == old(self).surroundings(),
            final(self).settings() == old(self).settings(),
            is_extended(old(self).graph(), final(self).graph()),
    {
        let ghost before = self.nodes@;
        let ghost cs = self.config.chunk_size;
        proof {
            assert(self.graph() == before);
            assert forall|a: NodeID| #[trigger] changed@.contains_key(a) implies before.contains_key(
                a,
            ) by {
                assert(changed@.dom().contains(a));
            }
        }
        self.connect_nodes(Some(changed), Ghost(t));
        proof {
            let after = self.nodes@;
            assert(self.graph() == after);
            assert forall|p: Point| #[trigger] is_entrance(
                t,
                cs,
                p,
            ) implies has_node_at(after, p) by {
                assert(has_node_at(before, p));
                let a = choose|a: NodeID| #[trigger] before.contains_key(a) && before[a].pos == p;
                assert(after.dom().contains(a));
                assert(after.contains_key(a) && after[a].pos == p);
            }
        }
    }
}

impl<N: Neighborhood + Sync> PathCache<N> {
    /// Tells the cache that the costs of the given tiles have changed.
    ///
    /// The chunks in which the tiles lie are searched for paths again, so it is best to
    /// collect changes and make a single call.
    pub fn tiles_changed<F: Sync + Fn(Point) -> isize>(&mut self, tiles: &[Point], get_cost: F)
        requires
            old(self).is_valid(),
            forall|i: int| 0 <= i < tiles@.len() ==> on_grid(#[trigger] tiles@[i], old(self).size()),
            is_changed_cost_fn(
                get_cost,
                old(self).terrain(),
                old(self).settings().chunk_size,
                tiles@,
            ),
        ensures
            final(self).is_valid(),
            final(self).terrain() == changed_terrain(old(self).terrain(), get_cost, tiles@),
            is_change_of(old(self).terrain(), final(self).terrain(), tiles@),
            is_cost_fn(get_cost, final(self).terrain()),
            final(self).size() == old(self).size(),
            final(self).surroundings() == old(self).surroundings(),
            final(self).settings() == old(self).settings(),
            are_others_kept(
                old(self).graph(),
                final(self).graph(),
                tiles@,
                old(self).settings().chunk_size,
                old(self).size(),
            ),
            are_updated(
                final(self).terrain(),
                old(self).settings().chunk_size,
                old(self).graph(),
                final(self).graph(),
                tiles@,
            ),
    {
        let ghost before = self.terrain();
        let ghost initial = self.graph();
        let ghost t = changed_terrain(before, get_cost, tiles@);
        proof {
            lemma_changed(before, get_cost, self.config.chunk_size, tiles@);
            lemma_ground_wf(t, self.neighborhood);
            lemma_shared_cost_fn(&get_cost, t);
        }
        let mut shared = &get_cost;
        self.ground = Ghost(t);
        let (dirty, renew) = self.remove_changed(tiles, Ghost(before), Ghost(t));
        let ghost base = self.nodes@;
        let mut changed: NodeIDSet = self.renew_sides(&renew, &dirty, &mut shared, Ghost(tiles@));
        let ghost renewed = self.nodes@;
        let ghost created = changed@.dom();
        self.reconnect_parallel(&dirty, &get_cost, &mut changed, Ghost(base));
        let ghost reconnected = self.nodes@;
        self.finish_change(changed, Ghost(t));
        proof {
            lemma_updated(
                t,
                self.config.chunk_size,
                self.config.cache_paths,
                initial,
                base,
                renewed,
                reconnected,
                self.nodes@,
                tiles@,
                dirty@.dom(),
                created,
            );
        }
    }
}

} // verus!
