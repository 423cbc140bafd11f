//! What holds of the nodes of the cache and of their connections.

use vstd::prelude::*;

use super::entrance::{
    is_entrance, is_entrance_to, is_passage_end, lemma_crossing, lemma_path_in_joins,
    lemma_path_in_reverses, lemma_path_to_itself, lemma_step_in,
};
use super::layout::{is_at_border, lemma_region_of, region_of};
use crate::dir::{next_tile, Dir};
use crate::graph::{is_way_back, node_edges, NodeView};
use crate::path::PathSegment;
use crate::search::is_cheapest;
use crate::terrain::{
    lemma_agreeing, lemma_agreement_mutual, lemma_region_subgraph, lemma_reversed_cost, Region,
    Terrain,
};
use crate::walk::{
    connects, is_walk, lemma_reaches_in_supergraph, lemma_reaches_itself, lemma_reaches_transitive,
    lemma_single_step, linked, reaches, walk_cost,
};
use crate::{Cost, NodeID, Point};

verus! {

/// The nodes of a cache.
pub type Nodes = Map<NodeID, NodeView>;

/// The tile of the node can be walked over, at the cost that the node says, and lies at a
/// border of its chunk.
pub open spec fn is_node_sound(t: Terrain, chunk_size: usize, node: NodeView) -> bool {
    &&& t.open(node.pos)
    &&& node.walk_cost == (t.cost)(node.pos)
    &&& exists|dir: Dir| #[trigger] is_at_border(node.pos, dir, chunk_size, t.size)
}

pub open spec fn are_nodes_sound(t: Terrain, chunk_size: usize, nodes: Nodes) -> bool {
    forall|a: NodeID| #[trigger] nodes.contains_key(a) ==> is_node_sound(t, chunk_size, nodes[a])
}

/// The points of `s` are the path of the segment from `a` to `b`: a cheapest one within the
/// chunk of `a`, or a single step to a tile of another chunk.
pub open spec fn is_link_over(
    t: Terrain,
    chunk_size: usize,
    a: Point,
    b: Point,
    path: PathSegment,
    s: Seq<Point>,
) -> bool {
    let r = region_of(a, chunk_size, t.size);
    &&& path.matches(s)
    &&& s.len() >= 2
    &&& if r.contains(b) {
        &&& t.is_route(r, s, a, b, path.total() as nat)
        &&& s.len() <= r.area()
        &&& is_cheapest(t.edges(r), a, b, path.total() as nat)
    } else {
        &&& t.step(a, b)
        &&& s == seq![a, b]
        &&& path.total() == (t.cost)(a)
    }
}

/// The segment leads from `a` to `b`.
pub open spec fn is_link(
    t: Terrain,
    chunk_size: usize,
    a: Point,
    b: Point,
    path: PathSegment,
) -> bool {
    exists|s: Seq<Point>| #[trigger] is_link_over(t, chunk_size, a, b, path, s)
}

/// The connections lead from node to node; their points are stored if `known` is set.
pub open spec fn are_links_sound(t: Terrain, chunk_size: usize, known: bool, nodes: Nodes) -> bool {
    forall|a: NodeID, b: NodeID|
        nodes.contains_key(a) && #[trigger] nodes[a].edges.contains_key(b) ==> {
            &&& nodes.contains_key(b)
            &&& a != b
            &&& is_link(t, chunk_size, nodes[a].pos, nodes[b].pos, nodes[a].edges[b])
            &&& nodes[a].edges[b] is Known == known
        }
}

/// Both nodes lie in the same chunk.
pub open spec fn in_same_chunk(t: Terrain, chunk_size: usize, a: NodeView, b: NodeView) -> bool {
    region_of(a.pos, chunk_size, t.size) == region_of(b.pos, chunk_size, t.size)
}

/// If there is a path within their chunk from node to node, they are connected.
pub open spec fn is_linked_inside(
    t: Terrain,
    chunk_size: usize,
    nodes: Nodes,
    a: NodeID,
    b: NodeID,
) -> bool {
    a != b && in_same_chunk(t, chunk_size, nodes[a], nodes[b]) && t.has_path_in(
        region_of(nodes[a].pos, chunk_size, t.size),
        nodes[a].pos,
        nodes[b].pos,
    ) ==> nodes[a].edges.contains_key(b)
}

/// If the nodes lie in different chunks, next to each other, they are connected.
pub open spec fn is_linked_across(
    t: Terrain,
    chunk_size: usize,
    nodes: Nodes,
    a: NodeID,
    b: NodeID,
) -> bool {
    !in_same_chunk(t, chunk_size, nodes[a], nodes[b]) && (t.adjacent)(nodes[a].pos, nodes[b].pos)
        ==> nodes[a].edges.contains_key(b)
}

/// The nodes within each chunk are connected.
pub open spec fn is_complete_inside(t: Terrain, chunk_size: usize, nodes: Nodes) -> bool {
    forall|a: NodeID, b: NodeID|
        nodes.contains_key(a) && nodes.contains_key(b) ==> #[trigger] is_linked_inside(
            t,
            chunk_size,
            nodes,
            a,
            b,
        )
}

/// The nodes next to each other in different chunks are connected.
pub open spec fn is_complete_across(t: Terrain, chunk_size: usize, nodes: Nodes) -> bool {
    forall|a: NodeID, b: NodeID|
        nodes.contains_key(a) && nodes.contains_key(b) ==> #[trigger] is_linked_across(
            t,
            chunk_size,
            nodes,
            a,
            b,
        )
}

/// There is a node at the tile.
pub open spec fn has_node_at(nodes: Nodes, p: Point) -> bool {
    exists|a: NodeID| #[trigger] nodes.contains_key(a) && nodes[a].pos == p
}

/// There is a node at each entrance.
pub open spec fn has_entrances(t: Terrain, chunk_size: usize, nodes: Nodes) -> bool {
    forall|p: Point| #[trigger] is_entrance(t, chunk_size, p) ==> has_node_at(nodes, p)
}

/// Of the given nodes, none is cheaper to reach from the tile within the rectangle.
pub open spec fn is_nearest(
    t: Terrain,
    r: Region,
    nodes: Nodes,
    ids: Set<NodeID>,
    p: Point,
    id: NodeID,
) -> bool {
    &&& ids.contains(id)
    &&& exists|s: Seq<Point>|
        {
            &&& #[trigger] connects(t.edges(r), s, p, nodes[id].pos)
            &&& forall|b: NodeID| #[trigger]
                ids.contains(b) ==> is_cheapest(
                    t.edges(r),
                    p,
                    nodes[b].pos,
                    walk_cost(t.edges(r), s),
                )
        }
}

/// The tile is the position of one of the given nodes.
pub open spec fn is_position(nodes: Nodes, ids: Set<NodeID>, p: Point) -> bool {
    exists|id: NodeID| #[trigger] ids.contains(id) && nodes[id].pos == p
}

/// The positions of the given nodes.
pub open spec fn positions_of(nodes: Nodes, ids: Set<NodeID>) -> Set<Point> {
    Set::new(|p: Point| is_position(nodes, ids, p))
}

/// No two nodes have the same position.
pub open spec fn has_unique_positions(nodes: Nodes) -> bool {
    forall|a: NodeID, b: NodeID| #[trigger]
        nodes.contains_key(a) && #[trigger] nodes.contains_key(b) && nodes[a].pos == nodes[b].pos
            ==> a == b
}

/// The graph of the nodes stands for the grid.
pub open spec fn is_graph_of(t: Terrain, chunk_size: usize, known: bool, nodes: Nodes) -> bool {
    &&& are_nodes_sound(t, chunk_size, nodes)
    &&& are_links_sound(t, chunk_size, known, nodes)
    &&& is_complete_inside(t, chunk_size, nodes)
    &&& is_complete_across(t, chunk_size, nodes)
    &&& has_entrances(t, chunk_size, nodes)
}

/// A connection within a chunk leads along a path within the chunk, one to another chunk
/// is a step.
pub proof fn lemma_link(t: Terrain, chunk_size: usize, a: Point, b: Point, path: PathSegment)
    requires
        t.wf(),
        0 < chunk_size,
        t.open(a),
        t.open(b),
        is_link(t, chunk_size, a, b, path),
    ensures
        region_of(a, chunk_size, t.size) == region_of(b, chunk_size, t.size) ==> t.has_path_in(
            region_of(a, chunk_size, t.size),
            a,
            b,
        ),
        region_of(a, chunk_size, t.size) != region_of(b, chunk_size, t.size) ==> t.step(a, b),
        t.has_path(a, b),
{
    let r = region_of(a, chunk_size, t.size);
    lemma_region_of(a, chunk_size, t.size);
    lemma_region_of(b, chunk_size, t.size);
    let s = choose|s: Seq<Point>| #[trigger] is_link_over(t, chunk_size, a, b, path, s);
    if r.contains(b) {
        assert(connects(t.edges(r), s, a, b));
        lemma_region_subgraph(t, r);
        lemma_reaches_in_supergraph(t.edges(r), t.edges(t.whole()), a, b);
    } else {
        lemma_single_step(t.edges(t.whole()), a, b);
    }
}

/// Connections can be taken back.
pub proof fn lemma_links_two_way(
    t: Terrain,
    chunk_size: usize,
    known: bool,
    nodes: Nodes,
    a: NodeID,
    b: NodeID,
)
    requires
        t.wf(),
        0 < chunk_size,
        are_nodes_sound(t, chunk_size, nodes),
        are_links_sound(t, chunk_size, known, nodes),
        is_complete_inside(t, chunk_size, nodes),
        is_complete_across(t, chunk_size, nodes),
        nodes.contains_key(a),
        nodes[a].edges.contains_key(b),
    ensures
        nodes.contains_key(b),
        nodes[b].edges.contains_key(a),
{
    let (p, q) = (nodes[a].pos, nodes[b].pos);
    assert(is_node_sound(t, chunk_size, nodes[a]));
    assert(is_node_sound(t, chunk_size, nodes[b]));
    lemma_link(t, chunk_size, p, q, nodes[a].edges[b]);
    if in_same_chunk(t, chunk_size, nodes[a], nodes[b]) {
        lemma_path_in_reverses(t, region_of(p, chunk_size, t.size), p, q);
        assert(is_linked_inside(t, chunk_size, nodes, b, a));
    } else {
        assert((t.adjacent)(p, q));
        assert(is_linked_across(t, chunk_size, nodes, b, a));
    }
}

/// Nodes of the same chunk with a path between them in the chunk are connected, if they are
/// not the same.
proof fn lemma_inside_reaches(
    t: Terrain,
    chunk_size: usize,
    nodes: Nodes,
    a: NodeID,
    b: NodeID,
)
    requires
        is_complete_inside(t, chunk_size, nodes),
        nodes.contains_key(a),
        nodes.contains_key(b),
        in_same_chunk(t, chunk_size, nodes[a], nodes[b]),
        t.has_path_in(region_of(nodes[a].pos, chunk_size, t.size), nodes[a].pos, nodes[b].pos),
    ensures
        reaches(node_edges(nodes), a, b),
{
    if a == b {
        lemma_reaches_itself(node_edges(nodes), a);
    } else {
        assert(is_linked_inside(t, chunk_size, nodes, a, b));
        lemma_single_step(node_edges(nodes), a, b);
    }
}

/// From a node from which a walk starts, one gets over nodes to the chunk in which the walk
/// ends, at a place from which one gets to the end within the chunk.
proof fn lemma_walk_over_nodes(
    t: Terrain,
    chunk_size: usize,
    known: bool,
    nodes: Nodes,
    a: NodeID,
    s: Seq<Point>,
) -> (n: NodeID)
    requires
        t.wf(),
        0 < chunk_size,
        is_graph_of(t, chunk_size, known, nodes),
        nodes.contains_key(a),
        is_walk(t.edges(t.whole()), s),
        s[0] == nodes[a].pos,
    ensures
        nodes.contains_key(n),
        reaches(node_edges(nodes), a, n),
        t.open(s.last()),
        region_of(nodes[n].pos, chunk_size, t.size) == region_of(s.last(), chunk_size, t.size),
        t.has_path_in(region_of(s.last(), chunk_size, t.size), nodes[n].pos, s.last()),
    decreases s.len(),
{
    let e = node_edges(nodes);
    assert(is_node_sound(t, chunk_size, nodes[a]));
    if s.len() == 1 {
        lemma_reaches_itself(e, a);
        lemma_region_of(s[0], chunk_size, t.size);
        lemma_path_to_itself(t, region_of(s[0], chunk_size, t.size), s[0]);
        a
    } else {
        let d = s.drop_last();
        assert forall|i: int| 0 <= i < d.len() - 1 implies #[trigger] linked(
            t.edges(t.whole()),
            d,
            i,
        ) by {
            assert(linked(t.edges(t.whole()), s, i));
        }
        let n = lemma_walk_over_nodes(t, chunk_size, known, nodes, a, d);
        let (x, y) = (d.last(), s.last());
        assert(linked(t.edges(t.whole()), s, s.len() - 2));
        assert(t.step(x, y));
        lemma_region_of(x, chunk_size, t.size);
        lemma_region_of(y, chunk_size, t.size);
        let (r, o) = (region_of(x, chunk_size, t.size), region_of(y, chunk_size, t.size));
        if r == o {
            lemma_step_in(t, r, x, y);
            lemma_path_in_joins(t, r, nodes[n].pos, x, y);
            n
        } else {
            let (p, q) = lemma_crossing(t, chunk_size, x, y);
            assert(has_node_at(nodes, p));
            assert(has_node_at(nodes, q));
            let u = choose|u: NodeID| #[trigger] nodes.contains_key(u) && nodes[u].pos == p;
            let v = choose|v: NodeID| #[trigger] nodes.contains_key(v) && nodes[v].pos == q;
            lemma_path_in_joins(t, r, nodes[n].pos, x, p);
            lemma_inside_reaches(t, chunk_size, nodes, n, u);
            assert(is_linked_across(t, chunk_size, nodes, u, v));
            lemma_single_step(e, u, v);
            lemma_reaches_transitive(e, a, n, u);
            lemma_reaches_transitive(e, a, u, v);
            v
        }
    }
}

/// Where there is a path from node to node on the grid, there is one over nodes.
pub proof fn lemma_graph_is_complete(
    t: Terrain,
    chunk_size: usize,
    known: bool,
    nodes: Nodes,
    a: NodeID,
    b: NodeID,
)
    requires
        t.wf(),
        0 < chunk_size,
        is_graph_of(t, chunk_size, known, nodes),
        nodes.contains_key(a),
        nodes.contains_key(b),
        t.has_path(nodes[a].pos, nodes[b].pos),
    ensures
        reaches(node_edges(nodes), a, b),
{
    let s = choose|s: Seq<Point>| #[trigger]
        connects(t.edges(t.whole()), s, nodes[a].pos, nodes[b].pos);
    let n = lemma_walk_over_nodes(t, chunk_size, known, nodes, a, s);
    lemma_inside_reaches(t, chunk_size, nodes, n, b);
    lemma_reaches_transitive(node_edges(nodes), a, n, b);
}

/// Where there is a path over nodes, there is one on the grid.
pub proof fn lemma_graph_is_sound(
    t: Terrain,
    chunk_size: usize,
    known: bool,
    nodes: Nodes,
    s: Seq<NodeID>,
)
    requires
        t.wf(),
        0 < chunk_size,
        are_nodes_sound(t, chunk_size, nodes),
        are_links_sound(t, chunk_size, known, nodes),
        is_walk(node_edges(nodes), s),
        nodes.contains_key(s[0]),
    ensures
        nodes.contains_key(s.last()),
        t.has_path(nodes[s[0]].pos, nodes[s.last()].pos),
    decreases s.len(),
{
    let e = node_edges(nodes);
    let g = t.edges(t.whole());
    assert(is_node_sound(t, chunk_size, nodes[s[0]]));
    if s.len() == 1 {
        lemma_reaches_itself(g, nodes[s[0]].pos);
    } else {
        let d = s.drop_last();
        assert forall|i: int| 0 <= i < d.len() - 1 implies #[trigger] linked(e, d, i) by {
            assert(linked(e, s, i));
        }
        lemma_graph_is_sound(t, chunk_size, known, nodes, d);
        assert(linked(e, s, s.len() - 2));
        let (a, b) = (d.last(), s.last());
        assert(nodes[a].edges.contains_key(b));
        assert(is_node_sound(t, chunk_size, nodes[b]));
        lemma_link(t, chunk_size, nodes[a].pos, nodes[b].pos, nodes[a].edges[b]);
        lemma_reaches_transitive(g, nodes[s[0]].pos, nodes[a].pos, nodes[b].pos);
    }
}

/// A path on the grid that does not stay in the chunk in which it starts leaves it over a
/// node.
pub proof fn lemma_way_out(
    t: Terrain,
    chunk_size: usize,
    nodes: Nodes,
    start: Point,
    goal: Point,
) -> (n: Option<NodeID>)
    requires
        t.wf(),
        0 < chunk_size,
        has_entrances(t, chunk_size, nodes),
        t.has_path(start, goal),
    ensures
        match n {
            Some(n) => {
                &&& nodes.contains_key(n)
                &&& region_of(nodes[n].pos, chunk_size, t.size) == region_of(
                    start,
                    chunk_size,
                    t.size,
                )
                &&& t.has_path_in(region_of(start, chunk_size, t.size), start, nodes[n].pos)
            },
            None => t.has_path_in(region_of(start, chunk_size, t.size), start, goal),
        },
{
    let g = t.edges(t.whole());
    let s = choose|s: Seq<Point>| #[trigger] connects(g, s, start, goal);
    lemma_way_out_of_walk(t, chunk_size, nodes, s)
}

proof fn lemma_way_out_of_walk(
    t: Terrain,
    chunk_size: usize,
    nodes: Nodes,
    s: Seq<Point>,
) -> (n: Option<NodeID>)
    requires
        t.wf(),
        0 < chunk_size,
        has_entrances(t, chunk_size, nodes),
        is_walk(t.edges(t.whole()), s),
        t.open(s[0]),
    ensures
        t.open(s.last()),
        match n {
            Some(n) => {
                &&& nodes.contains_key(n)
                &&& region_of(nodes[n].pos, chunk_size, t.size) == region_of(
                    s[0],
                    chunk_size,
                    t.size,
                )
                &&& t.has_path_in(region_of(s[0], chunk_size, t.size), s[0], nodes[n].pos)
            },
            None => t.has_path_in(region_of(s[0], chunk_size, t.size), s[0], s.last()),
        },
    decreases s.len(),
{
    let g = t.edges(t.whole());
    let r = region_of(s[0], chunk_size, t.size);
    lemma_region_of(s[0], chunk_size, t.size);
    if s.len() == 1 {
        lemma_path_to_itself(t, r, s[0]);
        None
    } else {
        let d = s.drop_last();
        assert forall|i: int| 0 <= i < d.len() - 1 implies #[trigger] linked(g, d, i) by {
            assert(linked(g, s, i));
        }
        let n = lemma_way_out_of_walk(t, chunk_size, nodes, d);
        assert(linked(g, s, s.len() - 2));
        let (x, y) = (d.last(), s.last());
        assert(t.step(x, y));
        if n is Some {
            n
        } else {
            lemma_region_of(x, chunk_size, t.size);
            lemma_region_of(y, chunk_size, t.size);
            assert(r.contains(x));
            assert(region_of(x, chunk_size, t.size) == r);
            if region_of(y, chunk_size, t.size) == r {
                lemma_step_in(t, r, x, y);
                lemma_path_in_joins(t, r, s[0], x, y);
                None
            } else {
                let (p, q) = lemma_crossing(t, chunk_size, x, y);
                assert(has_node_at(nodes, p));
                let u = choose|u: NodeID| #[trigger] nodes.contains_key(u) && nodes[u].pos == p;
                lemma_path_in_joins(t, r, s[0], x, p);
                Some(u)
            }
        }
    }
}

/// The nodes are the same, and have at least the connections that they had.
pub open spec fn is_extended(before: Nodes, after: Nodes) -> bool {
    &&& after.dom() == before.dom()
    &&& forall|a: NodeID| #[trigger]
        before.contains_key(a) ==> {
            &&& after[a].pos == before[a].pos
            &&& after[a].walk_cost == before[a].walk_cost
            &&& forall|b: NodeID| #[trigger]
                before[a].edges.contains_key(b) ==> after[a].edges.contains_key(b)
        }
}

pub proof fn lemma_extended_twice(first: Nodes, second: Nodes, third: Nodes)
    requires
        is_extended(first, second),
        is_extended(second, third),
    ensures
        is_extended(first, third),
{
    assert forall|a: NodeID| #[trigger] first.contains_key(a) implies {
        &&& third[a].pos == first[a].pos
        &&& third[a].walk_cost == first[a].walk_cost
        &&& forall|b: NodeID| #[trigger]
            first[a].edges.contains_key(b) ==> third[a].edges.contains_key(b)
    } by {
        assert(second.dom().contains(a));
        assert(second.contains_key(a));
        assert forall|b: NodeID| #[trigger] first[a].edges.contains_key(b) implies third[a].edges.contains_key(
            b,
        ) by {
            assert(second[a].edges.contains_key(b));
        }
    }
}

/// The nodes with two of them connected both ways.
pub open spec fn with_link(
    nodes: Nodes,
    a: NodeID,
    b: NodeID,
    path: PathSegment,
    back: PathSegment,
) -> Nodes {
    nodes.insert(a, nodes[a].with_edge(b, path)).insert(b, nodes[b].with_edge(a, back))
}

/// A cheapest path taken back is a cheapest one.
pub proof fn lemma_cheapest_back(t: Terrain, r: Region, a: Point, b: Point, cost: nat)
    requires
        t.wf(),
        is_cheapest(t.edges(r), a, b, cost),
        0 <= (t.cost)(a) <= cost,
        0 <= (t.cost)(b),
    ensures
        is_cheapest(t.edges(r), b, a, (cost - (t.cost)(a) + (t.cost)(b)) as nat),
{
    let e = t.edges(r);
    assert forall|u: Seq<Point>| #[trigger] connects(e, u, b, a) implies cost - (t.cost)(a) + (
    t.cost)(b) <= walk_cost(e, u) by {
        lemma_reversed_cost(t, r, u);
        assert(connects(e, u.reverse(), a, b));
        if u.len() == 1 {
            assert(u.reverse() =~= u);
        }
    }
}

/// A connection taken back is one.
proof fn lemma_link_back(
    t: Terrain,
    chunk_size: usize,
    a: Point,
    b: Point,
    path: PathSegment,
    back: PathSegment,
    s: Seq<Point>,
)
    requires
        t.wf(),
        0 < chunk_size,
        t.open(a),
        t.open(b),
        is_link_over(t, chunk_size, a, b, path, s),
        (t.cost)(a) <= path.total(),
        is_way_back(path, back, (t.cost)(a) as Cost, (t.cost)(b) as Cost),
        0 <= (t.cost)(a) <= usize::MAX,
        0 <= (t.cost)(b) <= usize::MAX,
    ensures
        is_link_over(t, chunk_size, b, a, back, s.reverse()),
{
    let r = region_of(a, chunk_size, t.size);
    lemma_region_of(a, chunk_size, t.size);
    lemma_region_of(b, chunk_size, t.size);
    assert(path.matches(s));
    assert(back.matches(s.reverse()));
    if r.contains(b) {
        assert(region_of(b, chunk_size, t.size) == r);
        lemma_reversed_cost(t, r, s);
        lemma_cheapest_back(t, r, a, b, path.total() as nat);
    } else {
        assert(!region_of(b, chunk_size, t.size).contains(a)) by {
            if region_of(b, chunk_size, t.size).contains(a) {
                assert(region_of(b, chunk_size, t.size) == r);
            }
        }
        assert((t.adjacent)(a, b));
        assert(s.reverse() =~= seq![b, a]);
    }
}

/// Connecting two nodes keeps what holds of the connections.
pub proof fn lemma_link_added(
    t: Terrain,
    chunk_size: usize,
    known: bool,
    nodes: Nodes,
    a: NodeID,
    b: NodeID,
    path: PathSegment,
    back: PathSegment,
    s: Seq<Point>,
)
    requires
        t.wf(),
        0 < chunk_size,
        are_nodes_sound(t, chunk_size, nodes),
        are_links_sound(t, chunk_size, known, nodes),
        nodes.contains_key(a),
        nodes.contains_key(b),
        a != b,
        is_link_over(t, chunk_size, nodes[a].pos, nodes[b].pos, path, s),
        nodes[a].walk_cost <= path.total(),
        is_way_back(path, back, nodes[a].walk_cost, nodes[b].walk_cost),
        path is Known == known,
    ensures
        are_nodes_sound(t, chunk_size, with_link(nodes, a, b, path, back)),
        are_links_sound(t, chunk_size, known, with_link(nodes, a, b, path, back)),
        is_extended(nodes, with_link(nodes, a, b, path, back)),
{
    let after = with_link(nodes, a, b, path, back);
    assert(is_node_sound(t, chunk_size, nodes[a]));
    assert(is_node_sound(t, chunk_size, nodes[b]));
    lemma_link_back(t, chunk_size, nodes[a].pos, nodes[b].pos, path, back, s);
    assert(after.dom() =~= nodes.dom());
    assert forall|c: NodeID| #[trigger] after.contains_key(c) implies is_node_sound(
        t,
        chunk_size,
        after[c],
    ) by {
        assert(nodes.contains_key(c));
        assert(is_node_sound(t, chunk_size, nodes[c]));
        assert(after[c].pos == nodes[c].pos && after[c].walk_cost == nodes[c].walk_cost);
    }
    assert forall|c: NodeID, d: NodeID|
        after.contains_key(c) && #[trigger] after[c].edges.contains_key(d) implies {
        &&& after.contains_key(d)
        &&& c != d
        &&& is_link(t, chunk_size, after[c].pos, after[d].pos, after[c].edges[d])
        &&& after[c].edges[d] is Known == known
    } by {
        if c == a && d == b {
            assert(is_link_over(t, chunk_size, after[c].pos, after[d].pos, after[c].edges[d], s));
        } else if c == b && d == a {
            assert(is_link_over(
                t,
                chunk_size,
                after[c].pos,
                after[d].pos,
                after[c].edges[d],
                s.reverse(),
            ));
        } else {
            assert(nodes.contains_key(c));
            assert(nodes[c].edges.contains_key(d));
            assert(after[c].edges[d] == nodes[c].edges[d]);
        }
    }
}

/// On grids that agree the same tiles are entrances.
pub proof fn lemma_entrances_agree(t: Terrain, u: Terrain, chunk_size: usize, p: Point)
    requires
        t.agrees_with(u),
        is_entrance(t, chunk_size, p),
    ensures
        is_entrance(u, chunk_size, p),
{
    let dir = choose|dir: Dir| #[trigger] is_entrance_to(t, chunk_size, p, dir);
    let r = region_of(p, chunk_size, t.size);
    lemma_agreeing(t, u, r);
    assert forall|side: Dir| #[trigger] is_passage_end(
        t,
        r,
        p,
        dir,
        side,
    ) implies is_passage_end(u, r, p, dir, side) by {
        let next = next_tile(p, side, t.size);
        if next is Some {
            let diagonal = next_tile(next->0, dir, t.size);
            assert((t.adjacent)(p, diagonal->0) == (u.adjacent)(p, diagonal->0));
        }
    }
    assert(u.open(p) == t.open(p));
    assert(is_entrance_to(u, chunk_size, p, dir));
}

/// The graph of the nodes stands for every grid that agrees with its own.
pub proof fn lemma_graph_of_agreeing(
    t: Terrain,
    u: Terrain,
    chunk_size: usize,
    known: bool,
    nodes: Nodes,
)
    requires
        t.agrees_with(u),
        is_graph_of(t, chunk_size, known, nodes),
    ensures
        is_graph_of(u, chunk_size, known, nodes),
{
    lemma_agreeing(t, u, t.whole());
    assert forall|a: NodeID| #[trigger] nodes.contains_key(a) implies is_node_sound(
        u,
        chunk_size,
        nodes[a],
    ) by {
        assert(is_node_sound(t, chunk_size, nodes[a]));
        assert(u.open(nodes[a].pos) == t.open(nodes[a].pos));
        assert((t.cost)(nodes[a].pos) == (u.cost)(nodes[a].pos));
    }
    assert forall|a: NodeID, b: NodeID|
        nodes.contains_key(a) && #[trigger] nodes[a].edges.contains_key(b) implies {
        &&& nodes.contains_key(b)
        &&& a != b
        &&& is_link(u, chunk_size, nodes[a].pos, nodes[b].pos, nodes[a].edges[b])
        &&& nodes[a].edges[b] is Known == known
    } by {
        let (p, q, path) = (nodes[a].pos, nodes[b].pos, nodes[a].edges[b]);
        let r = region_of(p, chunk_size, t.size);
        lemma_agreeing(t, u, r);
        let s = choose|s: Seq<Point>| #[trigger] is_link_over(t, chunk_size, p, q, path, s);
        assert(is_node_sound(t, chunk_size, nodes[a]));
        assert((t.cost)(p) == (u.cost)(p));
        assert((t.adjacent)(p, q) == (u.adjacent)(p, q));
        assert(u.open(p) == t.open(p) && u.open(q) == t.open(q));
        assert(is_link_over(u, chunk_size, p, q, path, s));
    }
    assert forall|a: NodeID, b: NodeID|
        nodes.contains_key(a) && nodes.contains_key(b) implies #[trigger] is_linked_inside(
        u,
        chunk_size,
        nodes,
        a,
        b,
    ) by {
        lemma_agreeing(t, u, region_of(nodes[a].pos, chunk_size, t.size));
        assert(is_linked_inside(t, chunk_size, nodes, a, b));
        assert(u.open(nodes[a].pos) == t.open(nodes[a].pos));
        assert(u.open(nodes[b].pos) == t.open(nodes[b].pos));
    }
    assert forall|a: NodeID, b: NodeID|
        nodes.contains_key(a) && nodes.contains_key(b) implies #[trigger] is_linked_across(
        u,
        chunk_size,
        nodes,
        a,
        b,
    ) by {
        assert(is_linked_across(t, chunk_size, nodes, a, b));
        assert((t.adjacent)(nodes[a].pos, nodes[b].pos) == (u.adjacent)(
            nodes[a].pos,
            nodes[b].pos,
        ));
    }
    assert forall|p: Point| #[trigger] is_entrance(u, chunk_size, p) implies has_node_at(
        nodes,
        p,
    ) by {
        lemma_agreement_mutual(t, u);
        lemma_entrances_agree(u, t, chunk_size, p);
    }
}

} // verus!
