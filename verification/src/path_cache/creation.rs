//! Creating a cache.

use vstd::prelude::*;

use super::chunk::{are_linked_inside, is_chunk_added, Chunk};
use super::entrance::{is_entrance, is_entrance_to};
use super::layout::{
    band, chunk_count, chunk_index, chunk_pos, lemma_band, lemma_chunk_count, lemma_chunk_index,
    lemma_chunk_pos, lemma_region_of, lemma_same_chunk, region_of,
};
use super::limits::{chunk_area, fits, lemma_limits};
use super::links::{
    are_links_sound, are_nodes_sound, has_entrances, has_node_at, in_same_chunk, is_complete_inside,
    is_link, is_linked_inside, is_node_sound, Nodes,
};
use super::parallel::map_parallel;
use super::{are_chunks, are_members, PathCache, PathCacheConfig};
use crate::dir::Dir;
use crate::graph::{is_absorbed, shifted, NodeList};
use crate::neighbors::{on_grid, Neighborhood};
use crate::terrain::{
    is_cost_fn, is_definite, is_ground, lemma_described, lemma_ground_wf, lemma_shared_cost_fn,
    terrain, Region, Terrain,
};
use crate::{NodeID, Point};

verus! {

/// There are nodes at entrances only.
pub open spec fn has_only_entrances(t: Terrain, chunk_size: usize, nodes: Nodes) -> bool {
    forall|a: NodeID| #[trigger] nodes.contains_key(a) ==> is_entrance(t, chunk_size, nodes[a].pos)
}

/// The connections lead from node to node of the same chunk.
spec fn are_links_inside(t: Terrain, chunk_size: usize, nodes: Nodes) -> bool {
    forall|a: NodeID, b: NodeID|
        nodes.contains_key(a) && #[trigger] nodes[a].edges.contains_key(b) ==> in_same_chunk(
            t,
            chunk_size,
            nodes[a],
            nodes[b],
        )
}

/// The first chunks have been created.
spec fn are_built(
    t: Terrain,
    chunk_size: usize,
    known: bool,
    chunks: Seq<Chunk>,
    nodes: Nodes,
) -> bool {
    &&& are_chunks(chunks, chunk_size, t.size)
    &&& are_members(chunks, nodes)
    &&& are_nodes_sound(t, chunk_size, nodes)
    &&& are_links_sound(t, chunk_size, known, nodes)
    &&& are_links_inside(t, chunk_size, nodes)
    &&& has_only_entrances(t, chunk_size, nodes)
    &&& forall|a: NodeID| #[trigger]
        nodes.contains_key(a) ==> chunk_index(nodes[a].pos, chunk_size, t.size) < chunks.len()
    &&& forall|i: int|
        0 <= i < chunks.len() ==> are_linked_inside(
            t,
            chunk_size,
            nodes,
            (#[trigger] chunks[i]).nodes@.dom(),
        )
    &&& forall|p: Point| #[trigger]
        is_entrance(t, chunk_size, p) && chunk_index(p, chunk_size, t.size) < chunks.len()
            ==> has_node_at(nodes, p)
}

/// The number of chunks of a grid.
spec fn total_count(chunk_size: usize, size: (usize, usize)) -> int {
    chunk_count(size.0 as int, chunk_size as int) * chunk_count(size.1 as int, chunk_size as int)
}

/// A tile lies in a chunk if its index is that of the chunk.
proof fn lemma_index_of_chunk(
    chunks: Seq<Chunk>,
    chunk_size: usize,
    size: (usize, usize),
    i: int,
    p: Point,
)
    requires
        are_chunks(chunks, chunk_size, size),
        0 <= i < chunks.len() <= total_count(chunk_size, size),
        on_grid(p, size),
    ensures
        chunks[i].tiles().contains(p) <==> chunk_index(p, chunk_size, size) == i,
        chunks[i].tiles().contains(p) <==> region_of(p, chunk_size, size) == chunks[i].tiles(),
{
    chunks[i].lemma_tiles(chunk_size, size, p);
    lemma_chunk_pos(i, chunk_size, size);
    lemma_same_chunk(p, chunks[i].pos, chunk_size, size);
}

/// One more chunk has been created.
proof fn lemma_chunk_built(
    t: Terrain,
    chunk_size: usize,
    known: bool,
    chunks: Seq<Chunk>,
    before: Nodes,
    after: Nodes,
    chunk: Chunk,
)
    requires
        are_built(t, chunk_size, known, chunks, before),
        is_chunk_added(t, chunk_size, known, before, after, chunk),
        chunks.len() < total_count(chunk_size, t.size),
        chunk.wf(chunk_size, t.size),
        chunk.pos == chunk_pos(chunks.len() as int, chunk_size, t.size),
    ensures
        are_built(t, chunk_size, known, chunks.push(chunk), after),
{
    let n = chunks.len() as int;
    let more = chunks.push(chunk);
    assert(are_chunks(more, chunk_size, t.size)) by {
        assert forall|i: int| 0 <= i < more.len() implies {
            &&& (#[trigger] more[i]).wf(chunk_size, t.size)
            &&& more[i].pos == chunk_pos(i, chunk_size, t.size)
        } by {
            if i < n {
                assert(more[i] == chunks[i]);
            }
        }
    }
    assert forall|a: NodeID| #[trigger] after.contains_key(a) implies {
        &&& on_grid(after[a].pos, t.size)
        &&& chunk_index(after[a].pos, chunk_size, t.size) < more.len()
        &&& chunk.nodes@.contains_key(a) <==> !before.contains_key(a)
        &&& chunk.nodes@.contains_key(a) <==> chunk_index(after[a].pos, chunk_size, t.size) == n
        &&& is_entrance(t, chunk_size, after[a].pos)
    } by {
        assert(after.dom().contains(a));
        assert(is_node_sound(t, chunk_size, after[a]));
        lemma_index_of_chunk(more, chunk_size, t.size, n, after[a].pos);
        if before.contains_key(a) {
            assert(chunk_index(before[a].pos, chunk_size, t.size) < n);
        } else {
            assert(chunk.nodes@.contains_key(a));
        }
    }
    assert forall|i: int, id: NodeID| 0 <= i < more.len() implies (
    #[trigger] more[i].nodes@.contains_key(id) <==> after.contains_key(id)
        && more[i].tiles().contains(after[id].pos)) by {
        assert(after.dom().contains(id) <==> before.dom().contains(id)
            || chunk.nodes@.dom().contains(id));
        if after.contains_key(id) {
            lemma_index_of_chunk(more, chunk_size, t.size, i, after[id].pos);
        }
        if i < n {
            assert(more[i] == chunks[i]);
            assert(chunks[i].nodes@.contains_key(id) <==> before.contains_key(id)
                && chunks[i].tiles().contains(before[id].pos));
        }
    }
    assert forall|a: NodeID, b: NodeID|
        after.contains_key(a) && #[trigger] after[a].edges.contains_key(b) implies in_same_chunk(
        t,
        chunk_size,
        after[a],
        after[b],
    ) by {
        assert(after.dom().contains(a));
        if before.contains_key(a) {
            assert(before[a].edges.contains_key(b));
            assert(before.contains_key(b));
        } else {
            assert(chunk.nodes@.contains_key(b));
            lemma_index_of_chunk(more, chunk_size, t.size, n, after[a].pos);
            assert(after.contains_key(b));
            lemma_index_of_chunk(more, chunk_size, t.size, n, after[b].pos);
        }
    }
    assert forall|i: int| 0 <= i < more.len() implies are_linked_inside(
        t,
        chunk_size,
        after,
        (#[trigger] more[i]).nodes@.dom(),
    ) by {
        if i < n {
            assert(more[i] == chunks[i]);
            let ids = chunks[i].nodes@.dom();
            assert(are_linked_inside(t, chunk_size, before, ids));
            assert forall|a: NodeID, b: NodeID|
                ids.contains(a) && ids.contains(b) implies #[trigger] is_linked_inside(
                t,
                chunk_size,
                after,
                a,
                b,
            ) by {
                assert(is_linked_inside(t, chunk_size, before, a, b));
                assert(chunks[i].nodes@.contains_key(a) && chunks[i].nodes@.contains_key(b));
            }
        }
    }
    assert forall|p: Point| #[trigger]
        is_entrance(t, chunk_size, p) && chunk_index(p, chunk_size, t.size)
            < more.len() implies has_node_at(after, p) by {
        let dir = choose|dir: Dir| #[trigger]
            is_entrance_to(t, chunk_size, p, dir);
        assert(on_grid(p, t.size));
        lemma_index_of_chunk(more, chunk_size, t.size, n, p);
        if chunk_index(p, chunk_size, t.size) < n {
            assert(has_node_at(before, p));
            let a = choose|a: NodeID| #[trigger] before.contains_key(a) && before[a].pos == p;
            assert(after.dom().contains(a));
            assert(after.contains_key(a));
        }
    }
}

/// Once all chunks have been created, there is a node at each entrance, and those of each
/// chunk are connected.
proof fn lemma_all_built(
    t: Terrain,
    chunk_size: usize,
    known: bool,
    chunks: Seq<Chunk>,
    nodes: Nodes,
)
    requires
        are_built(t, chunk_size, known, chunks, nodes),
        chunks.len() == total_count(chunk_size, t.size),
    ensures
        is_complete_inside(t, chunk_size, nodes),
        has_entrances(t, chunk_size, nodes),
{
    assert forall|a: NodeID, b: NodeID|
        nodes.contains_key(a) && nodes.contains_key(b) implies #[trigger] is_linked_inside(
        t,
        chunk_size,
        nodes,
        a,
        b,
    ) by {
        assert(is_node_sound(t, chunk_size, nodes[a]));
        assert(is_node_sound(t, chunk_size, nodes[b]));
        if in_same_chunk(t, chunk_size, nodes[a], nodes[b]) {
            let i = chunk_index(nodes[a].pos, chunk_size, t.size);
            lemma_chunk_index(nodes[a].pos, chunk_size, t.size);
            lemma_same_chunk(nodes[a].pos, nodes[b].pos, chunk_size, t.size);
            lemma_index_of_chunk(chunks, chunk_size, t.size, i, nodes[a].pos);
            lemma_index_of_chunk(chunks, chunk_size, t.size, i, nodes[b].pos);
            assert(chunks[i].nodes@.contains_key(a));
            assert(chunks[i].nodes@.contains_key(b));
            assert(chunks[i].nodes@.dom().contains(a));
            assert(are_linked_inside(t, chunk_size, nodes, chunks[i].nodes@.dom()));
        }
    }
    assert forall|p: Point| #[trigger] is_entrance(t, chunk_size, p) implies has_node_at(
        nodes,
        p,
    ) by {
        let dir = choose|dir: Dir| #[trigger]
            is_entrance_to(t, chunk_size, p, dir);
        lemma_chunk_index(p, chunk_size, t.size);
    }
}

/// A chunk that was created with a list of its own has been added once the list is
/// absorbed.
proof fn lemma_chunk_absorbed(
    t: Terrain,
    chunk_size: usize,
    known: bool,
    own: Nodes,
    other: Nodes,
    all: Nodes,
    base: NodeID,
    chunk: Chunk,
    moved: Chunk,
)
    requires
        are_nodes_sound(t, chunk_size, own),
        are_links_sound(t, chunk_size, known, own),
        is_chunk_added(t, chunk_size, known, Map::empty(), other, chunk),
        is_absorbed(own, other, all, base),
        moved.tiles() == chunk.tiles(),
        forall|id: NodeID| #[trigger]
            moved.nodes@.contains_key(id) <==> id >= base && other.contains_key(
                (id - base) as NodeID,
            ),
    ensures
        is_chunk_added(t, chunk_size, known, own, all, moved),
{
    assert forall|id: NodeID| #[trigger] moved.nodes@.contains_key(id) implies {
        &&& other.contains_key((id - base) as NodeID)
        &&& chunk.nodes@.contains_key((id - base) as NodeID)
        &&& all.contains_key(id)
        &&& all[id] == shifted(other[(id - base) as NodeID], base)
        &&& !own.contains_key(id)
    } by {
        assert(other.dom().contains((id - base) as NodeID));
        assert(chunk.nodes@.dom().contains((id - base) as NodeID));
        if own.contains_key(id) {
            assert(id < base);
        }
        assert(all.contains_key(id));
    }
    assert(all.dom() =~= own.dom().union(moved.nodes@.dom()));
    assert forall|a: NodeID| #[trigger] all.contains_key(a) implies is_node_sound(
        t,
        chunk_size,
        all[a],
    ) by {
        if own.contains_key(a) {
            assert(is_node_sound(t, chunk_size, own[a]));
        } else {
            assert(moved.nodes@.contains_key(a));
            let k = (a - base) as NodeID;
            assert(other.contains_key(k));
            assert(is_node_sound(t, chunk_size, other[k]));
            assert(all[a].pos == other[k].pos && all[a].walk_cost == other[k].walk_cost);
        }
    }
    assert forall|a: NodeID, b: NodeID|
        all.contains_key(a) && #[trigger] all[a].edges.contains_key(b) implies {
        &&& all.contains_key(b)
        &&& a != b
        &&& is_link(t, chunk_size, all[a].pos, all[b].pos, all[a].edges[b])
        &&& all[a].edges[b] is Known == known
        &&& moved.nodes@.contains_key(a) ==> moved.nodes@.contains_key(b)
    } by {
        if own.contains_key(a) {
            assert(own[a].edges.contains_key(b));
            assert(own.contains_key(b));
        } else {
            assert(moved.nodes@.contains_key(a));
            let (k, l) = ((a - base) as NodeID, (b - base) as NodeID);
            assert(other.contains_key(k));
            assert(other[k].edges.contains_key(l));
            assert(other.contains_key(l));
            assert(moved.nodes@.contains_key(b));
        }
    }
    assert forall|a: NodeID| #[trigger] moved.nodes@.contains_key(a) implies {
        &&& !own.contains_key(a)
        &&& moved.tiles().contains(all[a].pos)
        &&& is_entrance(t, chunk_size, all[a].pos)
    } by {
        let k = (a - base) as NodeID;
        assert(other.contains_key(k));
    }
    let ids = moved.nodes@.dom();
    assert forall|a: NodeID, b: NodeID|
        ids.contains(a) && ids.contains(b) implies #[trigger] is_linked_inside(
        t,
        chunk_size,
        all,
        a,
        b,
    ) by {
        assert(moved.nodes@.contains_key(a) && moved.nodes@.contains_key(b));
        let (k, l) = ((a - base) as NodeID, (b - base) as NodeID);
        assert(other.contains_key(k) && other.contains_key(l));
        assert(chunk.nodes@.dom().contains(k) && chunk.nodes@.dom().contains(l));
        assert(is_linked_inside(t, chunk_size, other, k, l));
    }
    assert forall|p: Point| #[trigger]
        is_entrance(t, chunk_size, p) && moved.tiles().contains(p) implies has_node_at(all, p) by {
        assert(has_node_at(other, p));
        let k = choose|k: NodeID| #[trigger] other.contains_key(k) && other[k].pos == p;
        let a = (base + k) as NodeID;
        assert((a - base) as NodeID == k);
        assert(moved.nodes@.contains_key(a));
        assert(all.contains_key(a) && all[a].pos == p);
    }
}

/// There are that many chunks along a side of the grid, and the last one has that length.
spec fn is_division(length: usize, chunk_size: usize, divided: (usize, usize)) -> bool {
    &&& divided.0 == chunk_count(length as int, chunk_size as int)
    &&& forall|x: int|
        0 <= x < divided.0 ==> #[trigger] band(x * chunk_size, chunk_size as int, length as int) == (
            x * chunk_size,
            x * chunk_size + if x == divided.0 - 1 {
                divided.1
            } else {
                chunk_size
            },
        )
}

/// There are no more chunks than tiles.
proof fn lemma_count_fits(t: Terrain, chunk_size: usize)
    requires
        fits(t, chunk_size),
        0 < chunk_size,
    ensures
        0 <= total_count(chunk_size, t.size) <= usize::MAX,
        chunk_count(t.size.1 as int, chunk_size as int) * chunk_count(
            t.size.0 as int,
            chunk_size as int,
        ) == total_count(chunk_size, t.size),
{
    let (w, h) = (t.size.0 as int, t.size.1 as int);
    let (n, m) = (chunk_count(w, chunk_size as int), chunk_count(h, chunk_size as int));
    lemma_limits(t, chunk_size);
    lemma_chunk_count(0, chunk_size as int, w);
    lemma_chunk_count(0, chunk_size as int, h);
    let area = chunk_area(t.size, chunk_size);
    assert(0 <= n * m <= w * h && m * n == n * m) by (nonlinear_arith)
        requires
            0 <= n <= w,
            0 <= m <= h,
    ;
    assert(w * h <= (w * h + 2) * (area + 1)) by (nonlinear_arith)
        requires
            0 <= w * h,
            0 <= area,
    ;
}

/// At first there are no chunks.
proof fn lemma_nothing_built(t: Terrain, chunk_size: usize, known: bool)
    requires
        0 < chunk_size,
    ensures
        are_built(t, chunk_size, known, Seq::empty(), Map::empty()),
{
    assert forall|p: Point| #[trigger] is_entrance(t, chunk_size, p) implies chunk_index(
        p,
        chunk_size,
        t.size,
    ) >= 0 by {
        let dir = choose|dir: Dir| #[trigger] is_entrance_to(t, chunk_size, p, dir);
        lemma_chunk_index(p, chunk_size, t.size);
    }
}

/// No node lies in a chunk that has not been created.
proof fn lemma_no_node_ahead(
    t: Terrain,
    chunk_size: usize,
    known: bool,
    chunks: Seq<Chunk>,
    nodes: Nodes,
    pos: Point,
)
    requires
        are_built(t, chunk_size, known, chunks, nodes),
        chunks.len() < total_count(chunk_size, t.size),
        pos == chunk_pos(chunks.len() as int, chunk_size, t.size),
    ensures
        forall|a: NodeID| #[trigger]
            nodes.contains_key(a) ==> !region_of(pos, chunk_size, t.size).contains(nodes[a].pos),
{
    lemma_chunk_pos(chunks.len() as int, chunk_size, t.size);
    assert forall|a: NodeID| #[trigger] nodes.contains_key(a) implies !region_of(
        pos,
        chunk_size,
        t.size,
    ).contains(nodes[a].pos) by {
        assert(is_node_sound(t, chunk_size, nodes[a]));
        lemma_region_of(pos, chunk_size, t.size);
        lemma_region_of(nodes[a].pos, chunk_size, t.size);
        lemma_same_chunk(pos, nodes[a].pos, chunk_size, t.size);
    }
}

/// The chunk of the given index was created, with a list of its own.
spec fn is_created(
    t: &Terrain,
    config: PathCacheConfig,
    index: int,
    created: (Chunk, NodeList),
) -> bool {
    let (chunk, list) = created;
    &&& chunk.wf(config.chunk_size, t.size)
    &&& chunk.pos == chunk_pos(index, config.chunk_size, t.size)
    &&& list.wf()
    &&& is_chunk_added(
        *t,
        config.chunk_size,
        config.cache_paths,
        Map::empty(),
        list@,
        chunk,
    )
}

/// How many chunks there are along a side of the grid, and the length of the last one.
fn divide(length: usize, chunk_size: usize) -> (divided: (usize, usize))
    requires
        0 < chunk_size,
    ensures
        is_division(length, chunk_size, divided),
{
    let count: usize = length / chunk_size;
    proof {
        vstd::arithmetic::div_mod::lemma_fundamental_div_mod(length as int, chunk_size as int);
        assert(0 <= count * chunk_size <= length && count <= count * chunk_size) by (nonlinear_arith)
            requires
                length == chunk_size * count + length as int % chunk_size as int,
                0 <= length as int % chunk_size as int,
                1 <= chunk_size,
        ;
    }
    let remain: usize = length - count * chunk_size;
    let divided: (usize, usize) = if remain > 0 {
        (count + 1, remain)
    } else {
        (count, chunk_size)
    };
    proof {
        let cs = chunk_size as int;
        assert(chunk_size * count == count * chunk_size) by (nonlinear_arith);
        assert forall|x: int| 0 <= x < divided.0 implies #[trigger] band(
            x * chunk_size,
            cs,
            length as int,
        ) == (
            x * chunk_size,
            x * chunk_size + if x == divided.0 - 1 {
                divided.1
            } else {
                chunk_size
            },
        ) by {
            lemma_chunk_count(x, cs, length as int);
            if x < count {
                assert(x * cs + cs <= count * cs) by (nonlinear_arith)
                    requires
                        x + 1 <= count,
                        0 < cs,
                ;
            } else {
                assert(x == count);
            }
        }
    }
    divided
}

/// Where the chunk of the given index lies, and how large it is.
fn chunk_at(
    index: usize,
    size: (usize, usize),
    chunk_size: usize,
    across: (usize, usize),
    down: (usize, usize),
) -> (place: (Point, (usize, usize)))
    requires
        0 < chunk_size,
        index < total_count(chunk_size, size),
        is_division(size.0, chunk_size, across),
        is_division(size.1, chunk_size, down),
    ensures
        place.0 == chunk_pos(index as int, chunk_size, size),
        on_grid(place.0, size),
        place.0.0 + place.1.0 <= size.0,
        place.0.1 + place.1.1 <= size.1,
        region_of(place.0, chunk_size, size) == (Region {
            left: place.0.0,
            top: place.0.1,
            right: (place.0.0 + place.1.0) as usize,
            bottom: (place.0.1 + place.1.1) as usize,
        }),
{
    proof {
        lemma_chunk_pos(index as int, chunk_size, size);
        reveal(region_of);
    }
    let x: usize = index % across.0;
    let y: usize = index / across.0;
    let w: usize = if x == across.0 - 1 {
        across.1
    } else {
        chunk_size
    };
    let h: usize = if y == down.0 - 1 {
        down.1
    } else {
        chunk_size
    };
    proof {
        let cs = chunk_size as int;
        lemma_chunk_count(x as int, cs, size.0 as int);
        lemma_chunk_count(y as int, cs, size.1 as int);
        assert(band(x as int * chunk_size, cs, size.0 as int).0 == x * chunk_size);
        assert(band(y as int * chunk_size, cs, size.1 as int).0 == y * chunk_size);
        lemma_band(x * chunk_size, cs, size.0 as int);
        lemma_band(y * chunk_size, cs, size.1 as int);
    }
    ((x * chunk_size, y * chunk_size), (w, h))
}

impl<N: Neighborhood> PathCache<N> {
    /// Puts the cache together once its chunks have been created.
    fn assemble(
        size: (usize, usize),
        chunks: Vec<Chunk>,
        num_chunks: (usize, usize),
        nodes: NodeList,
        neighborhood: N,
        config: PathCacheConfig,
        Ghost(t): Ghost<Terrain>,
    ) -> (cache: PathCache<N>)
        requires
            neighborhood.size() == size,
            t.wf(),
            t.size == size,
            is_ground(t, neighborhood),
            nodes.wf(),
            0 < config.chunk_size,
            fits(t, config.chunk_size),
            num_chunks.0 == chunk_count(size.0 as int, config.chunk_size as int),
            num_chunks.1 == chunk_count(size.1 as int, config.chunk_size as int),
            chunks@.len() == total_count(config.chunk_size, size),
            are_built(t, config.chunk_size, config.cache_paths, chunks@, nodes@),
        ensures
            cache.is_valid(),
            cache.terrain() == t,
            cache.size() == size,
            cache.surroundings() == neighborhood,
            cache.settings() == config,
            has_only_entrances(t, config.chunk_size, cache.graph()),
    {
        proof {
            lemma_all_built(t, config.chunk_size, config.cache_paths, chunks@, nodes@);
        }
        let ghost before = nodes@;
        let mut cache = PathCache {
            width: size.0,
            height: size.1,
            chunks,
            num_chunks,
            nodes,
            neighborhood,
            config,
            ground: Ghost(t),
        };
        cache.connect_nodes(None, Ghost(t));
        proof {
            let after = cache.nodes@;
            assert forall|p: Point| #[trigger] is_entrance(
                t,
                config.chunk_size,
                p,
            ) implies has_node_at(after, p) by {
                assert(has_node_at(before, p));
                let a = choose|a: NodeID| #[trigger] before.contains_key(a) && before[a].pos == p;
                assert(after.dom().contains(a));
                assert(after.contains_key(a) && after[a].pos == p);
            }
            assert forall|a: NodeID| #[trigger] after.contains_key(a) implies is_entrance(
                t,
                config.chunk_size,
                after[a].pos,
            ) by {
                assert(after.dom().contains(a));
                assert(before.contains_key(a));
            }
        }
        cache
    }

    /// Same as [`new`](PathCache::new), but on a single thread, for a cost function that
    /// cannot be shared.
    pub fn new_with_fn_mut<F: FnMut(Point) -> isize>(
        size: (usize, usize),
        get_cost: F,
        neighborhood: N,
        config: PathCacheConfig,
    ) -> (cache: PathCache<N>)
        requires
            neighborhood.size() == size,
            0 < config.chunk_size,
            is_definite(get_cost, size),
            fits(terrain(neighborhood, get_cost), config.chunk_size),
        ensures
            cache.is_valid(),
            cache.size() == size,
            cache.surroundings() == neighborhood,
            cache.settings() == config,
            cache.terrain() == terrain(neighborhood, get_cost),
            is_cost_fn(get_cost, cache.terrain()),
            has_only_entrances(cache.terrain(), config.chunk_size, cache.graph()),
    {
        let mut get_cost = get_cost;
        let ghost cost_fn = get_cost;
        let ghost t = terrain(neighborhood, get_cost);
        let cs: usize = config.chunk_size;
        let across: (usize, usize) = divide(size.0, cs);
        let down: (usize, usize) = divide(size.1, cs);
        proof {
            lemma_described(neighborhood, get_cost);
            lemma_ground_wf(t, neighborhood);
            lemma_count_fits(t, cs);
        }
        let count: usize = down.0 * across.0;
        let mut nodes = NodeList::new();
        let mut chunks: Vec<Chunk> = Vec::new();
        proof {
            lemma_nothing_built(t, cs, config.cache_paths);
            assert(count == total_count(cs, size)) by (nonlinear_arith)
                requires
                    count == down.0 * across.0,
                    total_count(cs, size) == across.0 * down.0,
            ;
        }
        for index in 0..count
            invariant
                cs == config.chunk_size,
                0 < cs,
                neighborhood.size() == size,
                is_ground(t, neighborhood),
                get_cost == cost_fn,
                is_cost_fn(cost_fn, t),
                fits(t, cs),
                count == total_count(cs, size),
                is_division(size.0, cs, across),
                is_division(size.1, cs, down),
                nodes.wf(),
                chunks@.len() == index,
                are_built(t, cs, config.cache_paths, chunks@, nodes@),
        {
            let (pos, chunk_size) = chunk_at(index, size, cs, across, down);
            let ghost before = nodes@;
            proof {
                lemma_no_node_ahead(t, cs, config.cache_paths, chunks@, before, pos);
            }
            let chunk = Chunk::new(
                pos,
                chunk_size,
                size,
                &mut get_cost,
                &neighborhood,
                &mut nodes,
                config,
                Ghost(t),
            );
            proof {
                lemma_chunk_built(t, cs, config.cache_paths, chunks@, before, nodes@, chunk);
            }
            chunks.push(chunk);
        }
        PathCache::assemble(
            size,
            chunks,
            (across.0, down.0),
            nodes,
            neighborhood,
            config,
            Ghost(t),
        )
    }
}

impl<N: Neighborhood + Sync> PathCache<N> {
    /// Creates a cache.
    ///
    /// - `size`: the width and height of the grid
    /// - `get_cost`: gives the cost of walking over a tile; tiles of negative cost are solid
    /// - `neighborhood`: tells which tiles lie next to each other
    /// - `config`: the settings
    pub fn new<F: Sync + Fn(Point) -> isize>(
        size: (usize, usize),
        get_cost: F,
        neighborhood: N,
        config: PathCacheConfig,
    ) -> (cache: PathCache<N>)
        requires
            neighborhood.size() == size,
            0 < config.chunk_size,
            is_definite(get_cost, size),
            fits(terrain(neighborhood, get_cost), config.chunk_size),
        ensures
            cache.is_valid(),
            cache.size() == size,
            cache.surroundings() == neighborhood,
            cache.settings() == config,
            cache.terrain() == terrain(neighborhood, get_cost),
            is_cost_fn(get_cost, cache.terrain()),
            has_only_entrances(cache.terrain(), config.chunk_size, cache.graph()),
    {
        let ghost t = terrain(neighborhood, get_cost);
        let cs: usize = config.chunk_size;
        let across: (usize, usize) = divide(size.0, cs);
        let down: (usize, usize) = divide(size.1, cs);
        proof {
            lemma_described(neighborhood, get_cost);
            lemma_ground_wf(t, neighborhood);
            lemma_count_fits(t, cs);
        }
        let count: usize = down.0 * across.0;
        proof {
            lemma_nothing_built(t, cs, config.cache_paths);
            assert(count == total_count(cs, size)) by (nonlinear_arith)
                requires
                    count == down.0 * across.0,
                    total_count(cs, size) == across.0 * down.0,
            ;
        }
        proof {
            lemma_shared_cost_fn(&get_cost, t);
        }
        let get = &get_cost;
        let around = &neighborhood;
        let ground: Ghost<Terrain> = Ghost(t);
        let create = |index: usize| -> (created: (Chunk, NodeList))
            requires
                index < count,
            ensures
                is_created(&ground@, config, index as int, created),
            {
                let mut get_cost = get;
                let (pos, chunk_size) = chunk_at(index, size, cs, across, down);
                let mut node_list = NodeList::new();
                let chunk = Chunk::new(
                    pos,
                    chunk_size,
                    size,
                    &mut get_cost,
                    around,
                    &mut node_list,
                    config,
                    ground,
                );
                (chunk, node_list)
            };
        let created: Vec<(Chunk, NodeList)> = map_parallel(count, create);
        let mut nodes = NodeList::new();
        let mut chunks: Vec<Chunk> = Vec::new();
        let ghost all = created@;
        for made in iter: created
            invariant
                cs == config.chunk_size,
                0 < cs,
                t.size == size,
                count == total_count(cs, size),
                all.len() == count,
                iter.seq() == all,
                forall|i: int|
                    0 <= i < all.len() ==> is_created(&t, config, i, #[trigger] all[i]),
                nodes.wf(),
                chunks@.len() == iter.index(),
                are_built(t, cs, config.cache_paths, chunks@, nodes@),
        {
            let ghost before = nodes@;
            let (created_chunk, list) = made;
            let mut chunk = created_chunk;
            let ghost other = list@;
            proof {
                assert((created_chunk, list) == all[chunks@.len() as int]);
                lemma_no_node_ahead(t, cs, config.cache_paths, chunks@, before, chunk.pos);
                assert forall|a: NodeID, b: NodeID| #[trigger]
                    before.contains_key(a) && #[trigger] other.contains_key(b) implies before[a].pos
                    != other[b].pos by {
                    assert(other.dom().contains(b));
                    assert(chunk.nodes@.dom().contains(b));
                    assert(chunk.nodes@.contains_key(b));
                }
            }
            let (ids, base) = nodes.absorb(list);
            chunk.nodes = ids;
            proof {
                lemma_chunk_absorbed(
                    t,
                    cs,
                    config.cache_paths,
                    before,
                    other,
                    nodes@,
                    base@,
                    created_chunk,
                    chunk,
                );
                lemma_chunk_built(t, cs, config.cache_paths, chunks@, before, nodes@, chunk);
            }
            chunks.push(chunk);
        }
        PathCache::assemble(
            size,
            chunks,
            (across.0, down.0),
            nodes,
            neighborhood,
            config,
            Ghost(t),
        )
    }

    /// Same as [`new`](PathCache::new).
    pub fn new_parallel<F: Sync + Fn(Point) -> isize>(
        size: (usize, usize),
        get_cost: F,
        neighborhood: N,
        config: PathCacheConfig,
    ) -> (cache: PathCache<N>)
        requires
            neighborhood.size() == size,
            0 < config.chunk_size,
            is_definite(get_cost, size),
            fits(terrain(neighborhood, get_cost), config.chunk_size),
        ensures
            cache.is_valid(),
            cache.size() == size,
            cache.surroundings() == neighborhood,
            cache.settings() == config,
            cache.terrain() == terrain(neighborhood, get_cost),
            is_cost_fn(get_cost, cache.terrain()),
            has_only_entrances(cache.terrain(), config.chunk_size, cache.graph()),
    {
        PathCache::new(size, get_cost, neighborhood, config)
    }
}

} // verus!
