//! Finding paths.

use vstd::prelude::*;

use super::chunk::Chunk;
use super::detour::{
    is_guided, is_short, lemma_guided_in_chunk, lemma_guided_over_nodes, lemma_short_below,
};
use super::entrance::lemma_path_in_joins;
use super::layout::{lemma_region_of, region_of};
use super::limits::{lemma_graph_is_searchable, link_limit};
use super::links::{
    are_nodes_sound, has_entrances, has_unique_positions, is_node_sound, lemma_graph_is_complete,
    lemma_way_out, Nodes,
};
use super::outcome::{is_in_cave, is_way_over, lemma_outcomes_alike};
use super::resolve::{
    is_access, is_resolved, lemma_path_on_grid, lemma_resolved_as, lemma_route_on_grid, GoalData,
};
use super::PathCache;
use crate::abstract_path::{AbstractPath, Outline};
use crate::course::{by_cost, is_found};
use crate::graph::node_edges;
use crate::key_map::{NodeIDMap, PointMap};
use crate::neighbors::{is_same_point, on_grid, Neighborhood};
use crate::path::Path;
use crate::search::is_cheapest;
use crate::terrain::{lemma_ground_wf, lemma_steps_two_way, lemma_walk_in_region, Terrain};
use crate::walk::{
    connects, is_walk, lemma_reaches_itself, lemma_reaches_symmetric, lemma_reaches_transitive,
    linked, reaches, walk_cost,
};
use crate::{graph, Cost, NodeID, Point};

verus! {

/// There is a path between the nodes near the tiles if there is one between the tiles.
proof fn lemma_nodes_joined(
    t: Terrain,
    chunk_size: usize,
    nodes: Nodes,
    start: Point,
    goal: Point,
    start_id: NodeID,
    goal_id: NodeID,
)
    requires
        t.wf(),
        t.has_path(start, goal),
        t.has_path_in(region_of(start, chunk_size, t.size), start, nodes[start_id].pos),
        t.has_path_in(region_of(goal, chunk_size, t.size), goal, nodes[goal_id].pos),
    ensures
        t.has_path(nodes[start_id].pos, nodes[goal_id].pos),
{
    let g = t.edges(t.whole());
    let (a, b) = (nodes[start_id].pos, nodes[goal_id].pos);
    lemma_steps_two_way(t, t.whole());
    lemma_path_on_grid(t, region_of(start, chunk_size, t.size), start, a);
    lemma_path_on_grid(t, region_of(goal, chunk_size, t.size), goal, b);
    lemma_reaches_symmetric(g, start, a);
    lemma_reaches_transitive(g, a, start, goal);
    lemma_reaches_transitive(g, a, goal, b);
}

/// From a tile from which no node can be reached, one does not get out of its chunk.
proof fn lemma_cave(t: Terrain, chunk_size: usize, nodes: Nodes, p: Point, q: Point)
    requires
        t.wf(),
        0 < chunk_size,
        has_entrances(t, chunk_size, nodes),
        is_in_cave(t, chunk_size, nodes, p),
        t.has_path(p, q),
    ensures
        t.has_path_in(region_of(p, chunk_size, t.size), p, q),
{
    let n = lemma_way_out(t, chunk_size, nodes, p, q);
    if n is Some {
        assert(nodes.contains_key(n->0));
        assert(region_of(p, chunk_size, t.size).contains(nodes[n->0].pos));
    }
}

/// A walk from such a tile stays in the chunk.
proof fn lemma_walk_in_cave(
    t: Terrain,
    chunk_size: usize,
    nodes: Nodes,
    s: Seq<Point>,
)
    requires
        t.wf(),
        0 < chunk_size,
        has_entrances(t, chunk_size, nodes),
        is_in_cave(t, chunk_size, nodes, s[0]),
        t.open(s[0]),
        is_walk(t.edges(t.whole()), s),
    ensures
        is_walk(t.edges(region_of(s[0], chunk_size, t.size)), s),
        walk_cost(t.edges(region_of(s[0], chunk_size, t.size)), s) == walk_cost(
            t.edges(t.whole()),
            s,
        ),
        t.open(s.last()),
        region_of(s[0], chunk_size, t.size).contains(s.last()),
    decreases s.len(),
{
    let r = region_of(s[0], chunk_size, t.size);
    let (g, e) = (t.edges(t.whole()), t.edges(r));
    lemma_region_of(s[0], chunk_size, t.size);
    if s.len() > 1 {
        let d = s.drop_last();
        assert forall|i: int| 0 <= i < d.len() - 1 implies #[trigger] linked(g, d, i) by {
            assert(linked(g, s, i));
        }
        lemma_walk_in_cave(t, chunk_size, nodes, d);
        let (x, y) = (d.last(), s.last());
        assert(linked(g, s, s.len() - 2));
        assert(t.step(x, y));
        assert(connects(g, s, s[0], y));
        assert(t.has_path(s[0], y));
        lemma_cave(t, chunk_size, nodes, s[0], y);
        assert forall|i: int| 0 <= i < s.len() - 1 implies #[trigger] linked(e, s, i) by {
            if i < d.len() - 1 {
                assert(linked(e, d, i));
            }
        }
    }
}

/// A cheapest path within the chunk from such a tile is a cheapest one on the grid.
proof fn lemma_cheapest_in_cave(
    t: Terrain,
    chunk_size: usize,
    nodes: Nodes,
    start: Point,
    goal: Point,
    cost: nat,
)
    requires
        t.wf(),
        0 < chunk_size,
        has_entrances(t, chunk_size, nodes),
        is_in_cave(t, chunk_size, nodes, start),
        t.open(start),
        is_cheapest(t.edges(region_of(start, chunk_size, t.size)), start, goal, cost),
    ensures
        is_cheapest(t.edges(t.whole()), start, goal, cost),
{
    let g = t.edges(t.whole());
    assert forall|s: Seq<Point>| #[trigger] connects(g, s, start, goal) implies cost <= walk_cost(
        g,
        s,
    ) by {
        lemma_walk_in_cave(t, chunk_size, nodes, s);
        assert(connects(t.edges(region_of(start, chunk_size, t.size)), s, start, goal));
    }
}

/// A goal whose chunk has no node that can be reached from it cannot be reached from a tile
/// from which a node can be reached.
proof fn lemma_goal_in_cave(
    t: Terrain,
    chunk_size: usize,
    nodes: Nodes,
    start: Point,
    goal: Point,
    start_id: NodeID,
)
    requires
        t.wf(),
        0 < chunk_size,
        has_entrances(t, chunk_size, nodes),
        is_in_cave(t, chunk_size, nodes, goal),
        nodes.contains_key(start_id),
        region_of(nodes[start_id].pos, chunk_size, t.size) == region_of(start, chunk_size, t.size),
        t.has_path_in(region_of(start, chunk_size, t.size), start, nodes[start_id].pos),
    ensures
        !t.has_path(start, goal),
{
    if t.has_path(start, goal) {
        let r = region_of(goal, chunk_size, t.size);
        lemma_steps_two_way(t, t.whole());
        lemma_reaches_symmetric(t.edges(t.whole()), start, goal);
        lemma_cave(t, chunk_size, nodes, goal, start);
        lemma_region_of(goal, chunk_size, t.size);
        assert(region_of(start, chunk_size, t.size) == r);
        lemma_path_in_joins(t, r, goal, start, nodes[start_id].pos);
        assert(nodes.contains_key(start_id) && r.contains(nodes[start_id].pos));
    }
}

impl<N: Neighborhood> PathCache<N> {
    /// A path over nodes near the ends is the one that is found.
    proof fn lemma_way_found(
        &self,
        t: Terrain,
        start: Point,
        goal: Point,
        alone: bool,
        start_id: NodeID,
        start_path: Option<Path<Point>>,
        goal_id: NodeID,
        goal_path: Option<Path<Point>>,
        s: Seq<NodeID>,
        walk: nat,
        path: AbstractPath<N>,
    )
        requires
            t.wf(),
            0 < self.settings().chunk_size,
            are_nodes_sound(t, self.settings().chunk_size, self.graph()),
            start != goal,
            is_way_over(
                self.surroundings(),
                t,
                self.settings(),
                self.graph(),
                start,
                goal,
                alone,
                start_id,
                start_path,
                goal_id,
                goal_path,
                s,
                walk,
                path.outline(),
            ),
        ensures
            self.is_outcome(t, start, goal, alone, path.outline()),
    {
        let (nodes, cs) = (self.graph(), self.settings().chunk_size);
        reveal(PathCache::is_outcome);
        assert(is_node_sound(t, cs, nodes[start_id]));
        lemma_region_of(nodes[start_id].pos, cs, t.size);
        assert(!is_in_cave(t, cs, nodes, start)) by {
            assert(nodes.contains_key(start_id) && region_of(start, cs, t.size).contains(
                nodes[start_id].pos,
            ));
        }
    }

    /// A path that stays where it is.
    fn path_to_itself(&self, start: Point) -> (path: AbstractPath<N>)
        ensures
            self.is_answer(self.terrain(), start, start, path),
            forall|alone: bool| #[trigger]
                self.is_outcome(
                    self.terrain(),
                    start,
                    start,
                    alone,
                    path.outline(),
                ),
    {
        proof {
            reveal(PathCache::is_outcome);
        }
        let points: [Point; 2] = [start, start];
        assert(points@ =~= seq![start, start]);
        self.stored_path(Path::from_slice(&points, 0))
    }

    /// Calculates the path from `start` to `goal`, if there is one.
    ///
    /// The cost function has to be that of the grid for which the cache was created or
    /// updated last.
    pub fn find_path<F: FnMut(Point) -> isize>(
        &self,
        start: Point,
        goal: Point,
        get_cost: F,
    ) -> (path: Option<AbstractPath<N>>)
        requires
            self.is_ready_for(get_cost),
            on_grid(start, self.size()),
        ensures
            ({
                let t = self.terrain();
                match path {
                    Some(path) => {
                        &&& t.has_path(start, goal)
                        &&& self.is_answer(t, start, goal, path)
                        &&& self.is_outcome(
                            t,
                            start,
                            goal,
                            true,
                            path.outline(),
                        )
                    },
                    None => !t.has_path(start, goal),
                }
            }),
    {
        let mut get_cost = get_cost;
        self.find_path_with(start, goal, &mut get_cost)
    }

    /// See [`find_path`](PathCache::find_path).
    fn find_path_with<F: FnMut(Point) -> isize>(
        &self,
        start: Point,
        goal: Point,
        get_cost: &mut F,
    ) -> (path: Option<AbstractPath<N>>)
        requires
            self.is_ready_for(*old(get_cost)),
            on_grid(start, self.size()),
        ensures
            *final(get_cost) == *old(get_cost),
            ({
                let t = self.terrain();
                match path {
                    Some(path) => {
                        &&& t.has_path(start, goal)
                        &&& self.is_answer(t, start, goal, path)
                        &&& self.is_outcome(
                            t,
                            start,
                            goal,
                            true,
                            path.outline(),
                        )
                    },
                    None => !t.has_path(start, goal),
                }
            }),
    {
        let ghost t = self.terrain();
        let ghost cs = self.config.chunk_size;
        let ghost known = self.config.cache_paths;
        let ghost nodes = self.nodes@;
        let ghost g = t.edges(t.whole());
        if !self.in_bounds(goal) {
            return None;
        }
        let start_cost: isize = (*get_cost)(start);
        if start_cost < 0 {
            return None;
        }
        proof {
            lemma_ground_wf(self.terrain(), self.neighborhood);
            self.lemma_nodes();
            lemma_graph_is_searchable(t, cs, known, nodes);
            assert(t.open(start));
        }
        if is_same_point(start, goal) {
            proof {
                lemma_reaches_itself(g, start);
            }
            return Some(self.path_to_itself(start));
        }
        let (start_id, start_path) = match self.find_nearest_node(start, get_cost, false) {
            Some(nearest) => nearest,
            None => {
                let chunk: &Chunk = self.get_chunk(start);
                let found: Option<Path<Point>> = chunk.find_path(
                    start,
                    goal,
                    get_cost,
                    &self.neighborhood,
                    Ghost(cs),
                    Ghost(t),
                );
                return match found {
                    Some(path) => {
                        proof {
                            let s = path.points();
                            if s.len() == 1 {
                                assert(s[0] == s.last());
                            }
                            lemma_route_on_grid(
                                t,
                                chunk.tiles(),
                                s,
                                start,
                                goal,
                                path.total() as nat,
                            );
                            assert(linked(g, s, s.len() - 2));
                            assert(connects(g, s, start, goal));
                            reveal(PathCache::is_outcome);
                            if self.is_guided_here() {
                                reveal(is_short);
                                lemma_region_of(start, cs, t.size);
                                lemma_walk_in_region(t, chunk.tiles(), start, goal);
                                lemma_guided_in_chunk(self.neighborhood, t, cs, goal);
                                lemma_cheapest_in_cave(
                                    t,
                                    cs,
                                    nodes,
                                    start,
                                    goal,
                                    path.total() as nat,
                                );
                            }
                        }
                        Some(self.stored_path(path))
                    },
                    None => {
                        proof {
                            if t.has_path(start, goal) {
                                lemma_cave(t, cs, nodes, start, goal);
                            }
                        }
                        None
                    },
                };
            },
        };
        let (goal_id, goal_path) = match self.find_nearest_node(goal, get_cost, true) {
            Some(nearest) => nearest,
            None => {
                proof {
                    lemma_goal_in_cave(t, cs, nodes, start, goal, start_id);
                }
                return None;
            },
        };
        proof {
            if self.is_guided_here() {
                lemma_guided_over_nodes(self.neighborhood, t, cs, known, nodes, goal_id);
            }
        }
        let found: Option<Path<NodeID>> = graph::a_star_search(
            &self.nodes,
            start_id,
            goal_id,
            &self.neighborhood,
            Ghost(link_limit(t.size, cs)),
        );
        let path: Path<NodeID> = match found {
            Some(found) => found,
            None => {
                proof {
                    if t.has_path(start, goal) {
                        lemma_nodes_joined(t, cs, nodes, start, goal, start_id, goal_id);
                        lemma_graph_is_complete(t, cs, known, nodes, start_id, goal_id);
                    }
                }
                return None;
            },
        };
        let ghost walk = path;
        let mut paths: NodeIDMap<Path<NodeID>> = NodeIDMap::new();
        paths.insert(goal_id, path);
        let mut goal_data: Vec<GoalData> = Vec::new();
        goal_data.push((goal, goal_id, goal_path));
        let ghost data = goal_data@;
        let mut resolved: PointMap<AbstractPath<N>> = PointMap::new();
        self.resolve_paths(
            start,
            &start_path,
            goal_data,
            &paths,
            get_cost,
            &mut resolved,
            Ghost(start_id),
        );
        proof {
            assert(data[0].0 == goal);
            assert(is_resolved(data, paths@, goal));
            assert(resolved@.contains_key(goal));
            let answer = resolved@[goal];
            let i = lemma_resolved_as(
                *self,
                t,
                start,
                start_path,
                data,
                paths@,
                goal,
                answer,
            );
            assert(data[i] == (goal, goal_id, goal_path));
            self.lemma_way_found(
                t,
                start,
                goal,
                true,
                start_id,
                start_path,
                goal_id,
                goal_path,
                walk.points(),
                walk.total() as nat,
                answer,
            );
            assert(connects(g, answer.route(), start, goal));
            let s = answer.route();
            if s.len() == 1 {
                assert(s[0] == s.last());
            }
            assert(linked(g, s, s.len() - 2));
        }
        resolved.remove(&goal)
    }
}

/// There is a path to the goal, and to no other goal a cheaper one.
pub open spec fn is_closest<N>(all: Map<Point, AbstractPath<N>>, goal: Point) -> bool {
    &&& all.contains_key(goal)
    &&& forall|h: Point| #[trigger] all.contains_key(h) ==> all[goal].total() <= all[h].total()
}

/// `paths` are all of the paths or, with `only_closest`, that to the closest goal: one, if
/// there are any.
pub open spec fn are_chosen<N>(
    all: Map<Point, AbstractPath<N>>,
    only_closest: bool,
    paths: Map<Point, AbstractPath<N>>,
) -> bool {
    if only_closest {
        &&& forall|g: Point| #[trigger]
            paths.contains_key(g) ==> is_closest(all, g) && paths[g] == all[g]
        &&& forall|g: Point, h: Point| #[trigger]
            paths.contains_key(g) && #[trigger] paths.contains_key(h) ==> g == h
        &&& (exists|g: Point| #[trigger] all.contains_key(g)) ==> (exists|g: Point| #[trigger]
            paths.contains_key(g))
    } else {
        paths == all
    }
}

/// The goal is the `k`-th one, and the paths to those before it are more expensive.
pub open spec fn is_foremost_at<N>(
    all: Map<Point, AbstractPath<N>>,
    goals: Seq<Point>,
    goal: Point,
    k: int,
) -> bool {
    &&& 0 <= k < goals.len()
    &&& goals[k] == goal
    &&& forall|j: int|
        0 <= j < k && all.contains_key(#[trigger] goals[j]) ==> all[goal].total()
            < all[goals[j]].total()
}

/// Paths to goals that come before this one are more expensive.
pub open spec fn is_foremost<N>(
    all: Map<Point, AbstractPath<N>>,
    goals: Seq<Point>,
    goal: Point,
) -> bool {
    exists|k: int| #[trigger] is_foremost_at(all, goals, goal, k)
}

/// There are no paths exactly where there are none to choose from.
proof fn lemma_chosen<N: Neighborhood>(
    all: Map<Point, AbstractPath<N>>,
    only_closest: bool,
    paths: Map<Point, AbstractPath<N>>,
)
    requires
        are_chosen(all, only_closest, paths),
    ensures
        (exists|g: Point| #[trigger] paths.contains_key(g)) <==> (exists|g: Point| #[trigger]
            all.contains_key(g)),
        forall|g: Point| #[trigger]
            paths.contains_key(g) ==> all.contains_key(g) && paths[g] == all[g],
{
    if exists|g: Point| #[trigger] paths.contains_key(g) {
        let g = choose|g: Point| #[trigger] paths.contains_key(g);
        assert(all.contains_key(g));
    }
}

/// The nodes near the goals.
spec fn are_goal_ids(goal_data: Seq<GoalData>, ids: Seq<NodeID>) -> bool {
    &&& ids.len() == goal_data.len()
    &&& forall|i: int| 0 <= i < ids.len() ==> #[trigger] ids[i] == goal_data[i].1
}

impl<N: Neighborhood> PathCache<N> {
    /// The paths found are answers, one for each goal that can be reached; for a single goal
    /// that which [`find_path`](PathCache::find_path) finds.
    pub open spec fn are_answers(
        &self,
        t: Terrain,
        start: Point,
        goals: Seq<Point>,
        paths: Map<Point, AbstractPath<N>>,
    ) -> bool {
        &&& forall|g: Point| #[trigger]
            paths.contains_key(g) <==> goals.contains(g) && t.has_path(start, g)
        &&& forall|g: Point| #[trigger]
            paths.contains_key(g) ==> {
                &&& self.is_answer(t, start, g, paths[g])
                &&& self.is_outcome(
                    t,
                    start,
                    g,
                    goals.len() == 1,
                    paths[g].outline(),
                )
            }
    }

    /// The paths to goals in the chunk of `start`, from which no node can be reached.
    fn find_paths_in_cave<F: FnMut(Point) -> isize>(
        &self,
        start: Point,
        goals: &[Point],
        get_cost: &mut F,
    ) -> (paths: PointMap<AbstractPath<N>>)
        requires
            self.is_ready_for(*old(get_cost)),
            on_grid(start, self.size()),
            self.terrain().open(start),
            is_in_cave(
                self.terrain(),
                self.settings().chunk_size,
                self.graph(),
                start,
            ),
            goals@.len() != 1,
        ensures
            *final(get_cost) == *old(get_cost),
            paths.wf(),
            self.are_answers(self.terrain(), start, goals@, paths@),
    {
        let ghost t = self.terrain();
        let ghost cs = self.config.chunk_size;
        let ghost nodes = self.nodes@;
        let ghost r = region_of(start, cs, t.size);
        let ghost e = t.edges(r);
        proof {
            lemma_ground_wf(self.terrain(), self.neighborhood);
            self.lemma_nodes();
            lemma_region_of(start, cs, t.size);
        }
        let chunk: &Chunk = self.get_chunk(start);
        let found: PointMap<Path<Point>> = chunk.find_paths(
            start,
            goals,
            get_cost,
            &self.neighborhood,
            Ghost(cs),
            Ghost(t),
        );
        let ghost in_chunk = found@;
        proof {
            found.lemma_entries();
        }
        let ghost entries = found.entries();
        let list: Vec<(Point, Path<Point>)> = found.into_entries();
        let mut paths: PointMap<AbstractPath<N>> = PointMap::new();
        for entry in iter: list
            invariant
                iter.seq() == entries,
                t == self.terrain(),
                nodes == self.nodes@,
                cs == self.config.chunk_size,
                e == t.edges(r),
                t.wf(),
                0 < cs,
                has_entrances(t, cs, nodes),
                is_in_cave(t, cs, nodes, start),
                r == region_of(start, cs, t.size),
                t.open(start),
                r.contains(start),
                forall|i: int|
                    0 <= i < entries.len() ==> {
                        let (p, path) = #[trigger] entries[i];
                        &&& goals@.contains(p)
                        &&& connects(e, path.points(), start, p)
                        &&& walk_cost(e, path.points()) == path.total()
                        &&& is_cheapest(e, start, p, path.total() as nat)
                        &&& is_found(
                            e,
                            by_cost(),
                            start,
                            p,
                            path.points(),
                            path.total() as nat,
                        )
                    },
                paths.wf(),
                forall|p: Point| #[trigger]
                    paths@.contains_key(p) <==> exists|i: int|
                        0 <= i < iter.index() && (#[trigger] entries[i]).0 == p,
                forall|p: Point| #[trigger]
                    paths@.contains_key(p) ==> {
                        &&& goals@.contains(p)
                        &&& t.has_path_in(r, start, p)
                        &&& self.is_answer(t, start, p, paths@[p])
                        &&& self.is_outcome(
                            t,
                            start,
                            p,
                            false,
                            paths@[p].outline(),
                        )
                    },
        {
            let ghost n = iter.index() as int;
            let ghost previous = paths@;
            assert(entry == entries[n]);
            let (goal, path) = entry;
            let ghost s = path.points();
            proof {
                assert(connects(e, s, start, goal));
                lemma_walk_in_region(t, r, start, goal);
                lemma_route_on_grid(t, r, s, start, goal, path.total() as nat);
            }
            if is_same_point(goal, start) {
                paths.insert(goal, self.path_to_itself(start));
            } else {
                proof {
                    if s.len() == 1 {
                        assert(s[0] == s.last());
                    }
                    reveal(is_short);
                    reveal(PathCache::is_outcome);
                    lemma_cheapest_in_cave(t, cs, nodes, start, goal, path.total() as nat);
                }
                paths.insert(goal, self.stored_path(path));
            }
            proof {
                assert forall|p: Point| #[trigger] paths@.contains_key(p) <==> exists|i: int|
                    0 <= i < n + 1 && (#[trigger] entries[i]).0 == p by {
                    if previous.contains_key(p) {
                        let i = choose|i: int| 0 <= i < n && (#[trigger] entries[i]).0 == p;
                        assert(0 <= i < n + 1 && entries[i].0 == p);
                    }
                    if p == goal {
                        assert(entries[n].0 == p);
                    }
                }
            }
        }
        proof {
            assert forall|p: Point| #[trigger]
                goals@.contains(p) && t.has_path(start, p) implies paths@.contains_key(p) by {
                lemma_cave(t, cs, nodes, start, p);
                assert(in_chunk.contains_key(p));
                let i = choose|i: int|
                    0 <= i < entries.len() && #[trigger] entries[i] == (p, in_chunk[p]);
                assert(entries[i].0 == p);
            }
            assert forall|p: Point| #[trigger] paths@.contains_key(p) implies t.has_path(
                start,
                p,
            ) by {
                lemma_path_on_grid(t, r, start, p);
            }
        }
        paths
    }

    /// The paths to all goals that can be reached.
    fn find_all_paths<F: FnMut(Point) -> isize>(
        &self,
        start: Point,
        goals: &[Point],
        get_cost: F,
    ) -> (paths: PointMap<AbstractPath<N>>)
        requires
            self.is_ready_for(get_cost),
            on_grid(start, self.size()),
        ensures
            paths.wf(),
            self.are_answers(self.terrain(), start, goals@, paths@),
    {
        let mut get_cost = get_cost;
        let ghost cost_fn = get_cost;
        let ghost t = self.terrain();
        let ghost cs = self.config.chunk_size;
        let ghost known = self.config.cache_paths;
        let ghost nodes = self.nodes@;
        let ghost g = t.edges(t.whole());
        let ghost e = node_edges(nodes);
        let mut found: PointMap<AbstractPath<N>> = PointMap::new();
        let start_cost: isize = get_cost(start);
        if start_cost < 0 || goals.len() == 0 {
            return found;
        }
        proof {
            lemma_ground_wf(self.terrain(), self.neighborhood);
            self.lemma_nodes();
            lemma_graph_is_searchable(t, cs, known, nodes);
            assert(t.open(start));
        }
        if goals.len() == 1 {
            let goal: Point = goals[0];
            let path: Option<AbstractPath<N>> = self.find_path_with(start, goal, &mut get_cost);
            proof {
                assert(goals@[0] == goal);
                assert(goals@.contains(goal));
                assert forall|h: Point| #[trigger] goals@.contains(h) implies h == goal by {}
            }
            if let Some(path) = path {
                found.insert(goal, path);
            }
            proof {
                assert forall|h: Point| #[trigger]
                    goals@.contains(h) && t.has_path(start, h) implies found@.contains_key(h) by {}
            }
            return found;
        }
        let (start_id, start_path) = match self.find_nearest_node(start, &mut get_cost, false) {
            Some(nearest) => nearest,
            None => {
                return self.find_paths_in_cave(start, goals, &mut get_cost);
            },
        };
        let mut goal_data: Vec<GoalData> = Vec::new();
        let mut goal_ids: Vec<NodeID> = Vec::new();
        for i in 0..goals.len()
            invariant
                get_cost == cost_fn,
                self.is_ready_for(cost_fn),
                t == self.terrain(),
                t.wf(),
                nodes == self.nodes@,
                cs == self.config.chunk_size,
                0 < cs,
                nodes.contains_key(start_id),
                region_of(nodes[start_id].pos, cs, t.size) == region_of(start, cs, t.size),
                t.has_path_in(region_of(start, cs, t.size), start, nodes[start_id].pos),
                found.wf(),
                forall|p: Point| #[trigger]
                    found@.contains_key(p) <==> p == start && exists|k: int|
                        0 <= k < i && #[trigger] goals@[k] == p,
                forall|p: Point| #[trigger]
                    found@.contains_key(p) ==> {
                        &&& self.is_answer(t, start, start, found@[p])
                        &&& self.is_outcome(
                            t,
                            start,
                            start,
                            false,
                            found@[p].outline(),
                        )
                    },
                are_goal_ids(goal_data@, goal_ids@),
                forall|k: int|
                    0 <= k < goal_data@.len() ==> {
                        let (goal, goal_id, goal_path) = #[trigger] goal_data@[k];
                        &&& goals@.contains(goal)
                        &&& on_grid(goal, self.size())
                        &&& goal != start
                        &&& is_access(t, cs, nodes, goal, goal_id, goal_path, true)
                    },
                forall|k: int|
                    0 <= k < i && #[trigger] goals@[k] != start && t.has_path(start, goals@[k])
                        ==> exists|j: int|
                        0 <= j < goal_data@.len() && (#[trigger] goal_data@[j]).0 == goals@[k],
        {
            let goal: Point = goals[i];
            let ghost previous = found@;
            let ghost previous_data = goal_data@;
            assert(goals@.contains(goal)) by {
                assert(goals@[i as int] == goal);
            }
            if is_same_point(goal, start) {
                found.insert(goal, self.path_to_itself(start));
            } else if self.in_bounds(goal) {
                match self.find_nearest_node(goal, &mut get_cost, true) {
                    Some((goal_id, goal_path)) => {
                        goal_data.push((goal, goal_id, goal_path));
                        goal_ids.push(goal_id);
                        proof {
                            assert(goal_data@[previous_data.len() as int].0 == goal);
                        }
                    },
                    None => {
                        proof {
                            lemma_goal_in_cave(t, cs, nodes, start, goal, start_id);
                        }
                    },
                }
            }
            proof {
                assert forall|p: Point| #[trigger] found@.contains_key(p) <==> p == start
                    && exists|k: int| 0 <= k < i + 1 && #[trigger] goals@[k] == p by {
                    if previous.contains_key(p) {
                        let k = choose|k: int| 0 <= k < i && #[trigger] goals@[k] == p;
                        assert(0 <= k < i + 1 && goals@[k] == p);
                    }
                    if p == start && goal == start {
                        assert(goals@[i as int] == p);
                    }
                }
                assert forall|k: int|
                    0 <= k < i + 1 && #[trigger] goals@[k] != start && t.has_path(
                        start,
                        goals@[k],
                    ) implies exists|j: int|
                    0 <= j < goal_data@.len() && (#[trigger] goal_data@[j]).0 == goals@[k] by {
                    if k < i {
                        let j = choose|j: int|
                            0 <= j < previous_data.len() && (#[trigger] previous_data[j]).0
                                == goals@[k];
                        assert(goal_data@[j] == previous_data[j]);
                    }
                }
            }
        }
        let ghost data = goal_data@;
        let ghost itself = found@;
        let paths: NodeIDMap<Path<NodeID>> = graph::dijkstra_search(
            &self.nodes,
            &self.neighborhood,
            start_id,
            goal_ids.as_slice(),
            Ghost(link_limit(t.size, cs)),
        );
        self.resolve_paths(
            start,
            &start_path,
            goal_data,
            &paths,
            &mut get_cost,
            &mut found,
            Ghost(start_id),
        );
        proof {
            lemma_reaches_itself(g, start);
            assert forall|p: Point| #[trigger] found@.contains_key(p) implies {
                &&& goals@.contains(p)
                &&& t.has_path(start, p)
                &&& self.is_answer(t, start, p, found@[p])
                &&& self.is_outcome(
                    t,
                    start,
                    p,
                    false,
                    found@[p].outline(),
                )
            } by {
                if is_resolved(data, paths@, p) {
                    let k = lemma_resolved_as(
                        *self,
                        t,
                        start,
                        start_path,
                        data,
                        paths@,
                        p,
                        found@[p],
                    );
                    let (id, walk) = (data[k].1, paths@[data[k].1]);
                    assert(data[k] == (p, id, data[k].2));
                    self.lemma_way_found(
                        t,
                        start,
                        p,
                        false,
                        start_id,
                        start_path,
                        id,
                        data[k].2,
                        walk.points(),
                        walk.total() as nat,
                        found@[p],
                    );
                    let s = found@[p].route();
                    assert(connects(g, s, start, p));
                    if s.len() == 1 {
                        assert(s[0] == s.last());
                    }
                    assert(linked(g, s, s.len() - 2));
                } else {
                    assert(itself.contains_key(p));
                    let k = choose|k: int| 0 <= k < goals@.len() && #[trigger] goals@[k] == p;
                    assert(goals@.contains(p));
                }
            }
            // A goal that can be reached has a node that can be reached.
            assert forall|h: Point|
                goals@.contains(h) && h != start && #[trigger] t.has_path(
                    start,
                    h,
                ) implies exists|j: int|
                0 <= j < data.len() && (#[trigger] data[j]).0 == h && reaches(
                    e,
                    start_id,
                    data[j].1,
                ) by {
                let k = choose|k: int| 0 <= k < goals@.len() && goals@[k] == h;
                assert(goals@[k] == h);
                let j = choose|j: int| 0 <= j < data.len() && (#[trigger] data[j]).0 == goals@[k];
                let c = data[j].1;
                lemma_nodes_joined(t, cs, nodes, start, h, start_id, c);
                lemma_graph_is_complete(t, cs, known, nodes, start_id, c);
            }
            if goals@.contains(start) {
                let k = choose|k: int| 0 <= k < goals@.len() && goals@[k] == start;
                assert(goals@[k] == start);
                assert(itself.contains_key(start));
                assert(found@.contains_key(start));
            }
            assert forall|h: Point| #[trigger]
                goals@.contains(h) && t.has_path(start, h) implies found@.contains_key(h) by {
                if h != start {
                    let j = choose|j: int|
                        0 <= j < data.len() && (#[trigger] data[j]).0 == h && reaches(
                            e,
                            start_id,
                            data[j].1,
                        );
                    assert(goal_ids@[j] == data[j].1);
                    assert(goal_ids@.contains(data[j].1));
                    assert(is_resolved(data, paths@, h));
                }
            }
        }
        found
    }
}

impl<N: Neighborhood> PathCache<N> {
    /// Of the given paths the one to the closest goal: to the start, if it is one of the
    /// goals, and otherwise to the first of those to which no path is cheaper.
    fn keep_closest(
        start: Point,
        goals: &[Point],
        all: PointMap<AbstractPath<N>>,
    ) -> (closest: PointMap<AbstractPath<N>>)
        requires
            all.wf(),
            all@.contains_key(start) ==> all@[start].total() == 0,
            forall|g: Point| #[trigger] all@.contains_key(g) ==> goals@.contains(g),
        ensures
            closest.wf(),
            are_chosen(all@, true, closest@),
            all@.contains_key(start) ==> closest@.contains_key(start),
            forall|g: Point| #[trigger]
                closest@.contains_key(g) && g != start ==> is_foremost(all@, goals@, g),
    {
        let mut all = all;
        let ghost given = all@;
        let mut closest: PointMap<AbstractPath<N>> = PointMap::new();
        if let Some(path) = all.remove(&start) {
            closest.insert(start, path);
            assert(closest@.contains_key(start));
            return closest;
        }
        assert(all@ =~= given);
        let mut best: Option<(usize, Cost)> = None;
        for i in 0..goals.len()
            invariant
                all.wf(),
                all@ == given,
                match best {
                    Some((k, cost)) => {
                        &&& k < i
                        &&& given.contains_key(goals@[k as int])
                        &&& cost == given[goals@[k as int]].total()
                        &&& forall|j: int|
                            0 <= j < i && given.contains_key(#[trigger] goals@[j]) ==> {
                                &&& cost <= given[goals@[j]].total()
                                &&& j < k ==> cost < given[goals@[j]].total()
                            }
                    },
                    None => forall|j: int|
                        0 <= j < i ==> !given.contains_key(#[trigger] goals@[j]),
                },
        {
            if let Some(path) = all.get(&goals[i]) {
                let cost: Cost = path.cost();
                let is_closer: bool = match best {
                    Some((_, known)) => cost < known,
                    None => true,
                };
                if is_closer {
                    best = Some((i, cost));
                }
            }
        }
        if let Some((k, _)) = best {
            let goal: Point = goals[k];
            let path: Option<AbstractPath<N>> = all.remove(&goal);
            closest.insert(goal, path.unwrap());
            proof {
                assert(closest@.contains_key(goal));
                assert forall|h: Point| #[trigger] given.contains_key(h) implies given[goal].total()
                    <= given[h].total() by {
                    let j = choose|j: int| 0 <= j < goals@.len() && goals@[j] == h;
                    assert(given.contains_key(goals@[j]));
                }
                assert(is_foremost_at(given, goals@, goal, k as int));
            }
        } else {
            proof {
                assert forall|h: Point| !#[trigger] given.contains_key(h) by {
                    if given.contains_key(h) {
                        let j = choose|j: int| 0 <= j < goals@.len() && goals@[j] == h;
                        assert(given.contains_key(goals@[j]));
                    }
                }
            }
        }
        closest
    }

    /// The path costs no more than any that is found to one of the goals; and where the
    /// estimates of the neighborhood guide the searches, no more than a cheapest way over the
    /// nodes to one of them.
    pub open spec fn is_cheapest_found(
        &self,
        t: Terrain,
        start: Point,
        goals: Seq<Point>,
        cost: nat,
    ) -> bool {
        let alone = goals.len() == 1;
        &&& forall|h: Point, other: Outline|
            goals.contains(h) && t.has_path(start, h) && #[trigger] self.is_outcome(
                t,
                start,
                h,
                alone,
                other,
            ) ==> cost <= other.cost
        &&& forall|h: Point|
            #![trigger goals.contains(h)]
            {
                &&& goals.contains(h)
                &&& h != start
                &&& t.has_path(start, h)
                &&& is_guided(self.surroundings(), t, self.settings().chunk_size)
            } ==> is_short(t, self.settings(), self.graph(), start, h, cost)
    }

    /// The goal is the `k`-th one, and the paths that are found to those before it are more
    /// expensive.
    pub open spec fn is_first_closest_at(
        &self,
        t: Terrain,
        start: Point,
        goals: Seq<Point>,
        goal: Point,
        cost: nat,
        k: int,
    ) -> bool {
        let alone = goals.len() == 1;
        &&& 0 <= k < goals.len()
        &&& goals[k] == goal
        &&& forall|j: int, other: Outline|
            0 <= j < k && t.has_path(start, goals[j]) && #[trigger] self.is_outcome(
                t,
                start,
                goals[j],
                alone,
                other,
            ) ==> cost < other.cost
    }

    /// Of several goals that are equally close, this is the first one; the start, if it is one
    /// of the goals.
    pub open spec fn is_first_closest(
        &self,
        t: Terrain,
        start: Point,
        goals: Seq<Point>,
        goal: Point,
        cost: nat,
    ) -> bool {
        if goals.contains(start) {
            goal == start
        } else {
            exists|k: int| #[trigger] self.is_first_closest_at(t, start, goals, goal, cost, k)
        }
    }

    /// The cheapest of all the paths is the cheapest that is found.
    proof fn lemma_closest_found(
        &self,
        t: Terrain,
        start: Point,
        goals: Seq<Point>,
        all: Map<Point, AbstractPath<N>>,
        goal: Point,
    )
        requires
            has_unique_positions(self.graph()),
            self.are_answers(t, start, goals, all),
            is_closest(all, goal),
            goals.contains(start) ==> goal == start,
            goal != start ==> is_foremost(all, goals, goal),
        ensures
            self.is_cheapest_found(t, start, goals, all[goal].total() as nat),
            self.is_first_closest(t, start, goals, goal, all[goal].total() as nat),
    {
        let cost = all[goal].total() as nat;
        let alone = goals.len() == 1;
        if !goals.contains(start) {
            assert(goals.contains(goal));
            let k = choose|k: int| #[trigger] is_foremost_at(all, goals, goal, k);
            assert forall|j: int, other: Outline|
                0 <= j < k && t.has_path(start, goals[j]) && #[trigger] self.is_outcome(
                    t,
                    start,
                    goals[j],
                    alone,
                    other,
                ) implies cost < other.cost by {
                let h = goals[j];
                assert(goals.contains(h));
                assert(all.contains_key(h));
                lemma_outcomes_alike(*self, t, start, h, alone, other, all[h].outline());
            }
            assert(self.is_first_closest_at(t, start, goals, goal, cost, k));
        }
        assert forall|h: Point, other: Outline|
            goals.contains(h) && t.has_path(start, h) && #[trigger] self.is_outcome(
                t,
                start,
                h,
                alone,
                other,
            ) implies cost <= other.cost by {
            assert(all.contains_key(h));
            lemma_outcomes_alike(
                *self,
                t,
                start,
                h,
                alone,
                other,
                all[h].outline(),
            );
        }
        assert forall|h: Point|
            #![trigger goals.contains(h)]
            {
                &&& goals.contains(h)
                &&& h != start
                &&& t.has_path(start, h)
                &&& is_guided(self.surroundings(), t, self.settings().chunk_size)
            } implies is_short(t, self.settings(), self.graph(), start, h, cost) by {
            assert(all.contains_key(h));
            lemma_short_below(
                t,
                self.settings(),
                self.graph(),
                start,
                h,
                all[h].total() as nat,
                cost,
            );
        }
    }

    /// The paths to the goals or, with `only_closest_goal`, that to the closest one.
    pub fn find_paths_internal<F: FnMut(Point) -> isize>(
        &self,
        start: Point,
        goals: &[Point],
        get_cost: F,
        only_closest_goal: bool,
    ) -> (paths: PointMap<AbstractPath<N>>)
        requires
            self.is_ready_for(get_cost),
            on_grid(start, self.size()),
        ensures
            paths.wf(),
            exists|all: Map<Point, AbstractPath<N>>| #[trigger]
                self.are_answers(self.terrain(), start, goals@, all) && are_chosen(
                    all,
                    only_closest_goal,
                    paths@,
                ),
            goals@.contains(start) && self.terrain().open(start) ==> paths@.contains_key(start),
            !only_closest_goal ==> self.are_answers(self.terrain(), start, goals@, paths@),
            only_closest_goal ==> forall|g: Point, h: Point| #[trigger]
                paths@.contains_key(g) && #[trigger] paths@.contains_key(h) ==> g == h,
            forall|g: Point| #[trigger]
                paths@.contains_key(g) ==> {
                    &&& goals@.contains(g)
                    &&& self.terrain().has_path(start, g)
                    &&& self.is_answer(self.terrain(), start, g, paths@[g])
                    &&& self.is_outcome(
                        self.terrain(),
                        start,
                        g,
                        goals@.len() == 1,
                        paths@[g].outline(),
                    )
                    &&& only_closest_goal ==> self.is_cheapest_found(
                        self.terrain(),
                        start,
                        goals@,
                        paths@[g].total() as nat,
                    )
                    &&& only_closest_goal ==> self.is_first_closest(
                        self.terrain(),
                        start,
                        goals@,
                        g,
                        paths@[g].total() as nat,
                    )
                },
            (exists|g: Point| #[trigger] paths@.contains_key(g)) <==> (exists|g: Point| #[trigger]
                goals@.contains(g) && self.terrain().has_path(start, g)),
    {
        let all: PointMap<AbstractPath<N>> = self.find_all_paths(start, goals, get_cost);
        proof {
            let t = self.terrain();
            if t.open(start) {
                lemma_reaches_itself(t.edges(t.whole()), start);
                assert(t.has_path(start, start));
            }
            if all@.contains_key(start) {
                assert(self.is_answer(t, start, start, all@[start]));
            }
        }
        let ghost given = all@;
        let paths: PointMap<AbstractPath<N>> = if only_closest_goal {
            PathCache::keep_closest(start, goals, all)
        } else {
            all
        };
        proof {
            let t = self.terrain();
            self.lemma_nodes();
            lemma_chosen(given, only_closest_goal, paths@);
            if exists|g: Point| #[trigger] goals@.contains(g) && t.has_path(start, g) {
                let g = choose|g: Point| #[trigger] goals@.contains(g) && t.has_path(start, g);
                assert(given.contains_key(g));
            }
            if exists|g: Point| #[trigger] given.contains_key(g) {
                let g = choose|g: Point| #[trigger] given.contains_key(g);
                assert(goals@.contains(g) && t.has_path(start, g));
            }
            if only_closest_goal {
                assert forall|g: Point| #[trigger] paths@.contains_key(g) implies {
                    &&& self.is_cheapest_found(t, start, goals@, paths@[g].total() as nat)
                    &&& self.is_first_closest(t, start, goals@, g, paths@[g].total() as nat)
                } by {
                    assert(given.contains_key(g));
                    self.lemma_closest_found(t, start, goals@, given, g);
                }
            }
        }
        paths
    }

    /// Calculates the paths from `start` to several goals: for each goal to which there is
    /// one.
    ///
    /// For a few goals this is slower than [`find_path`](PathCache::find_path) for each of
    /// them, for many it is faster.
    pub fn find_paths<F: FnMut(Point) -> isize>(
        &self,
        start: Point,
        goals: &[Point],
        get_cost: F,
    ) -> (paths: PointMap<AbstractPath<N>>)
        requires
            self.is_ready_for(get_cost),
            on_grid(start, self.size()),
        ensures
            paths.wf(),
            self.are_answers(self.terrain(), start, goals@, paths@),
    {
        self.find_paths_internal(start, goals, get_cost, false)
    }

    /// Finds the closest of several goals, with the path to it; there is none if none of the
    /// goals can be reached.
    ///
    /// It is the goal to which the cheapest of the paths leads that
    /// [`find_paths`](PathCache::find_paths) would give; of several such goals, the first one.
    pub fn find_closest_goal<F: FnMut(Point) -> isize>(
        &self,
        start: Point,
        goals: &[Point],
        get_cost: F,
    ) -> (closest: Option<(Point, AbstractPath<N>)>)
        requires
            self.is_ready_for(get_cost),
            on_grid(start, self.size()),
        ensures
            ({
                let t = self.terrain();
                match closest {
                    Some((goal, path)) => {
                        &&& goals@.contains(goal)
                        &&& t.has_path(start, goal)
                        &&& self.is_answer(t, start, goal, path)
                        &&& goals@.contains(start) ==> goal == start
                        &&& self.is_outcome(
                            t,
                            start,
                            goal,
                            goals@.len() == 1,
                            path.outline(),
                        )
                        &&& self.is_cheapest_found(t, start, goals@, path.total() as nat)
                        &&& self.is_first_closest(
                            t,
                            start,
                            goals@,
                            goal,
                            path.total() as nat,
                        )
                        &&& exists|all: Map<Point, AbstractPath<N>>| #[trigger]
                            self.are_answers(t, start, goals@, all) && is_closest(all, goal)
                                && all[goal] == path
                    },
                    None => forall|g: Point| #[trigger]
                        goals@.contains(g) ==> !t.has_path(start, g),
                }
            }),
    {
        let ghost t = self.terrain();
        let paths: PointMap<AbstractPath<N>> = self.find_paths_internal(
            start,
            goals,
            get_cost,
            true,
        );
        let ghost found = paths@;
        let ghost all = choose|all: Map<Point, AbstractPath<N>>| #[trigger]
            self.are_answers(t, start, goals@, all) && are_chosen(all, true, found);
        proof {
            paths.lemma_entries();
        }
        let ghost entries = paths.entries();
        let mut list: Vec<(Point, AbstractPath<N>)> = paths.into_entries();
        let closest: Option<(Point, AbstractPath<N>)> = list.pop();
        proof {
            if closest is Some {
                let entry = closest->0;
                assert(entry == entries[entries.len() - 1]);
                assert(found.contains_key(entry.0));
                assert(all.contains_key(entry.0));
            } else {
                assert forall|g: Point| #[trigger] goals@.contains(g) implies !t.has_path(
                    start,
                    g,
                ) by {
                    if t.has_path(start, g) {
                        assert(all.contains_key(g));
                        let h = choose|h: Point| #[trigger] found.contains_key(h);
                        let i = choose|i: int|
                            0 <= i < entries.len() && #[trigger] entries[i] == (h, found[h]);
                        assert(false);
                    }
                }
            }
        }
        closest
    }
}

} // verus!
