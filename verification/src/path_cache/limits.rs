//! How large a grid and the costs of its tiles can be.

use vstd::prelude::*;

use super::layout::{lemma_region_of, region_of};
use super::links::{
    are_links_sound, are_nodes_sound, has_unique_positions, is_link_over, is_node_sound, Nodes,
};
use crate::abstract_path::{cost_limit, paths_are_affordable};
use crate::graph::is_searchable;
use crate::neighbors::on_grid;
use crate::path::PathSegment;
use crate::terrain::{is_affordable, lemma_tiles_fit, lemma_walk_cost_bound, Terrain};
use crate::{NodeID, Point};

verus! {

/// The highest number of tiles in a chunk.
pub open spec fn chunk_area(size: (usize, usize), chunk_size: usize) -> int {
    let w = if chunk_size < size.0 {
        chunk_size
    } else {
        size.0
    };
    let h = if chunk_size < size.1 {
        chunk_size
    } else {
        size.1
    };
    w * h
}

/// More than the number of steps in any path that can be put together.
pub open spec fn step_limit(size: (usize, usize), chunk_size: usize) -> int {
    (size.0 * size.1 + 2) * (chunk_area(size, chunk_size) + 1)
}

/// The highest cost of a tile with which no path that can be put together gets too
/// expensive for a [`Cost`](crate::Cost).
pub open spec fn tile_limit(size: (usize, usize), chunk_size: usize) -> nat {
    (usize::MAX as int / step_limit(size, chunk_size)) as nat
}

/// The grid is small enough, and its tiles cheap enough, for the lengths and costs of paths
/// to fit in machine words. The bound leaves room for the longest path that could be put
/// together, whether or not there is one.
pub open spec fn fits(t: Terrain, chunk_size: usize) -> bool {
    &&& step_limit(t.size, chunk_size) <= usize::MAX
    &&& forall|p: Point|
        on_grid(p, t.size) ==> #[trigger] (t.cost)(p) <= tile_limit(t.size, chunk_size)
}

/// The highest cost of a connection between nodes.
pub open spec fn link_limit(size: (usize, usize), chunk_size: usize) -> nat {
    (chunk_area(size, chunk_size) * tile_limit(size, chunk_size)) as nat
}

pub proof fn lemma_limits(t: Terrain, chunk_size: usize)
    requires
        fits(t, chunk_size),
        0 < chunk_size,
    ensures
        0 <= chunk_area(t.size, chunk_size),
        (t.size.0 * t.size.1 + 2) * link_limit(t.size, chunk_size) <= usize::MAX,
        (t.size.0 * t.size.1) * link_limit(t.size, chunk_size) + 2 * link_limit(
            t.size,
            chunk_size,
        ) <= usize::MAX,
        (t.size.0 * t.size.1) * chunk_area(t.size, chunk_size) + 2 * chunk_area(t.size, chunk_size)
            <= usize::MAX,
        is_affordable(t, t.whole(), tile_limit(t.size, chunk_size)),
        paths_are_affordable(t),
{
    let n = t.size.0 * t.size.1;
    let a = chunk_area(t.size, chunk_size);
    let w = tile_limit(t.size, chunk_size);
    let l = step_limit(t.size, chunk_size);
    let m = usize::MAX as int;
    assert(0 <= n) by (nonlinear_arith)
        requires
            n == t.size.0 * t.size.1,
    ;
    let cw = if chunk_size < t.size.0 {
        chunk_size
    } else {
        t.size.0
    };
    let ch = if chunk_size < t.size.1 {
        chunk_size
    } else {
        t.size.1
    };
    assert(0 <= cw * ch <= n) by (nonlinear_arith)
        requires
            0 <= cw <= t.size.0,
            0 <= ch <= t.size.1,
            n == t.size.0 * t.size.1,
    ;
    assert(l > 0) by (nonlinear_arith)
        requires
            l == (n + 2) * (a + 1),
            0 <= n,
            0 <= a,
    ;
    assert(l * w <= m && 0 <= m / l) by (nonlinear_arith)
        requires
            w == m / l,
            l > 0,
            m > 0,
    ;
    assert((n + 2) * (a * w) <= l * w && n * (a * w) + 2 * (a * w) == (n + 2) * (a * w) && n * w
        <= l * w && n * a + 2 * a <= l) by (nonlinear_arith)
        requires
            l == (n + 2) * (a + 1),
            0 <= n,
            0 <= a,
            0 <= w,
    ;
    assert(t.whole().area() == n);
    if n > 0 {
        assert(w <= m / n) by (nonlinear_arith)
            requires
                n * w <= m,
                n > 0,
                0 <= w,
                0 <= m,
        ;
        assert(n * (m / n) <= m) by (nonlinear_arith)
            requires
                n > 0,
                0 <= m,
        ;
        assert(0 <= m / n) by (nonlinear_arith)
            requires
                n > 0,
                0 <= m,
        ;
        assert(n * cost_limit(t.size) <= m);
        assert forall|p: Point| t.whole().contains(p) && on_grid(p, t.size) implies #[trigger] (
        t.cost)(p) <= cost_limit(t.size) by {}
    } else {
        assert forall|p: Point| !#[trigger] on_grid(p, t.size) by {
            assert(p.0 < t.size.0 && p.1 < t.size.1 ==> t.size.0 * t.size.1 > 0)
                by (nonlinear_arith);
        }
        assert(t.whole().area() * cost_limit(t.size) == 0) by (nonlinear_arith)
            requires
                t.whole().area() == 0,
        ;
        assert(n * w == 0) by (nonlinear_arith)
            requires
                n == 0,
        ;
        assert forall|p: Point| t.whole().contains(p) && on_grid(p, t.size) implies #[trigger] (
        t.cost)(p) <= cost_limit(t.size) by {
            assert(on_grid(p, t.size));
        }
    }
}

/// The limits within the chunk of a tile.
pub proof fn lemma_chunk_limits(t: Terrain, chunk_size: usize, p: Point)
    requires
        fits(t, chunk_size),
        0 < chunk_size,
        on_grid(p, t.size),
    ensures
        1 <= region_of(p, chunk_size, t.size).area() <= chunk_area(t.size, chunk_size),
        region_of(p, chunk_size, t.size).area() * tile_limit(t.size, chunk_size) <= link_limit(
            t.size,
            chunk_size,
        ),
        tile_limit(t.size, chunk_size) <= link_limit(t.size, chunk_size) <= usize::MAX,
        is_affordable(t, region_of(p, chunk_size, t.size), tile_limit(t.size, chunk_size)),
{
    let r = region_of(p, chunk_size, t.size);
    let w = tile_limit(t.size, chunk_size);
    let a = chunk_area(t.size, chunk_size);
    let n = t.size.0 * t.size.1;
    lemma_limits(t, chunk_size);
    lemma_region_of(p, chunk_size, t.size);
    let cw = if chunk_size < t.size.0 {
        chunk_size
    } else {
        t.size.0
    };
    let ch = if chunk_size < t.size.1 {
        chunk_size
    } else {
        t.size.1
    };
    let (rw, rh) = (r.right - r.left, r.bottom - r.top);
    assert(1 <= rw * rh <= cw * ch) by (nonlinear_arith)
        requires
            1 <= rw <= cw,
            1 <= rh <= ch,
    ;
    assert((rw * rh) * w <= a * w && w <= a * w) by (nonlinear_arith)
        requires
            1 <= rw * rh <= a,
            0 <= w,
    ;
    let l = link_limit(t.size, chunk_size);
    assert(l <= (n + 2) * l) by (nonlinear_arith)
        requires
            0 <= l,
            0 <= n,
    ;
    assert(0 <= n) by (nonlinear_arith)
        requires
            n == t.size.0 * t.size.1,
    ;
}

/// A connection costs no more than the limit, nor does it have more points than a chunk
/// has tiles, or two.
pub proof fn lemma_link_limit(
    t: Terrain,
    chunk_size: usize,
    a: Point,
    b: Point,
    path: PathSegment,
    s: Seq<Point>,
)
    requires
        t.wf(),
        fits(t, chunk_size),
        0 < chunk_size,
        t.open(a),
        t.open(b),
        is_link_over(t, chunk_size, a, b, path, s),
    ensures
        path.total() <= link_limit(t.size, chunk_size),
        path.count() <= chunk_area(t.size, chunk_size) + 1,
        (t.cost)(a) <= path.total(),
        path.total() - (t.cost)(a) + (t.cost)(b) <= usize::MAX,
{
    let r = region_of(a, chunk_size, t.size);
    let w = tile_limit(t.size, chunk_size);
    lemma_chunk_limits(t, chunk_size, a);
    if r.contains(b) {
        lemma_walk_cost_bound(t, r, s, w);
        assert((s.len() - 1) * w + w <= r.area() * w) by (nonlinear_arith)
            requires
                s.len() <= r.area(),
                0 <= w,
        ;
    }
}

/// The elements of a finite set can be listed.
proof fn lemma_listed<A>(set: Set<A>) -> (list: Seq<A>)
    requires
        set.finite(),
    ensures
        list.no_duplicates(),
        list.to_set() == set,
    decreases set.len(),
{
    if set.len() == 0 {
        let list = Seq::<A>::empty();
        assert(list.to_set() =~= set);
        list
    } else {
        let a = set.choose();
        let rest = lemma_listed(set.remove(a));
        let list = rest.push(a);
        assert(!rest.contains(a)) by {
            assert(rest.to_set().contains(a) == set.remove(a).contains(a));
        }
        assert forall|x: A| list.to_set().contains(x) == set.contains(x) by {
            assert(rest.to_set().contains(x) == set.remove(a).contains(x));
            if rest.contains(x) {
                let i = choose|i: int| 0 <= i < rest.len() && rest[i] == x;
                assert(list[i] == x);
            }
            if x == a {
                assert(list[rest.len() as int] == x);
            }
        }
        assert(list.to_set() =~= set);
        list
    }
}

/// There are no more nodes than tiles.
pub proof fn lemma_node_count(t: Terrain, chunk_size: usize, nodes: Nodes)
    requires
        nodes.dom().finite(),
        are_nodes_sound(t, chunk_size, nodes),
        has_unique_positions(nodes),
    ensures
        nodes.dom().len() <= t.size.0 * t.size.1,
{
    let ids = lemma_listed(nodes.dom());
    ids.unique_seq_to_set();
    let tiles = ids.map_values(|id: NodeID| nodes[id].pos);
    assert forall|i: int| 0 <= i < ids.len() implies nodes.contains_key(#[trigger] ids[i]) by {
        assert(ids.to_set().contains(ids[i]));
    }
    assert forall|i: int, j: int| 0 <= i < tiles.len() && 0 <= j < tiles.len() && i != j implies tiles[i]
        != tiles[j] by {
        assert(nodes.contains_key(ids[i]));
        assert(nodes.contains_key(ids[j]));
    }
    assert forall|i: int| 0 <= i < tiles.len() implies t.whole().contains(#[trigger] tiles[i]) by {
        assert(nodes.contains_key(ids[i]));
        assert(is_node_sound(t, chunk_size, nodes[ids[i]]));
    }
    lemma_tiles_fit(t.whole(), tiles);
}

/// The graph of the nodes can be searched.
pub proof fn lemma_graph_is_searchable(t: Terrain, chunk_size: usize, known: bool, nodes: Nodes)
    requires
        t.wf(),
        fits(t, chunk_size),
        0 < chunk_size,
        nodes.dom().finite(),
        are_nodes_sound(t, chunk_size, nodes),
        are_links_sound(t, chunk_size, known, nodes),
        has_unique_positions(nodes),
    ensures
        is_searchable(nodes, t.size, link_limit(t.size, chunk_size)),
        nodes.dom().len() <= t.size.0 * t.size.1,
{
    let limit = link_limit(t.size, chunk_size);
    let n = t.size.0 * t.size.1;
    lemma_node_count(t, chunk_size, nodes);
    lemma_limits(t, chunk_size);
    assert(nodes.dom().len() * limit <= n * limit) by (nonlinear_arith)
        requires
            nodes.dom().len() <= n,
            0 <= limit,
    ;
    assert forall|a: NodeID| #[trigger] nodes.contains_key(a) implies on_grid(
        nodes[a].pos,
        t.size,
    ) by {
        assert(is_node_sound(t, chunk_size, nodes[a]));
    }
    assert forall|a: NodeID, b: NodeID|
        nodes.contains_key(a) && #[trigger] nodes[a].edges.contains_key(b) implies {
        &&& nodes.contains_key(b)
        &&& nodes[a].edges[b].total() <= limit
    } by {
        assert(is_node_sound(t, chunk_size, nodes[a]));
        assert(is_node_sound(t, chunk_size, nodes[b]));
        let s = choose|s: Seq<Point>| #[trigger]
            is_link_over(t, chunk_size, nodes[a].pos, nodes[b].pos, nodes[a].edges[b], s);
        lemma_link_limit(t, chunk_size, nodes[a].pos, nodes[b].pos, nodes[a].edges[b], s);
    }
}

} // verus!
