//! The cache.

mod cache_config;
pub mod changes;
mod chunk;
mod connect;
pub mod creation;
pub mod detour;
pub mod entrance;
pub mod find;
mod index_set;
mod inspect;
pub mod layout;
pub mod limits;
pub mod links;
pub mod outcome;
mod parallel;
mod reconnect;
pub mod renew;
pub mod resolve;
pub mod update;

pub use cache_config::PathCacheConfig;
pub use inspect::{CacheInspector, NodeInspector};

use vstd::prelude::*;

use self::chunk::Chunk;
use self::entrance::is_entrance;
use self::layout::{
    chunk_count, chunk_index, chunk_pos, chunk_start, is_chunk_start, lemma_chunk_index,
    lemma_chunk_start, lemma_same_chunk, region_of,
};
use self::limits::fits;
use self::links::{
    has_node_at, has_unique_positions, is_graph_of, is_link, is_link_over, is_linked_across,
    is_linked_inside, is_node_sound, Nodes,
};
use crate::graph::{is_similar, NodeList};
use crate::neighbors::{on_grid, Neighborhood};
use crate::terrain::{is_cost_fn, is_ground, Terrain};
use crate::{NodeID, Point};

verus! {

/// The information by which paths on a grid are found.
pub struct PathCache<N> {
    width: usize,
    height: usize,
    chunks: Vec<Chunk>,
    num_chunks: (usize, usize),
    nodes: NodeList,
    neighborhood: N,
    config: PathCacheConfig,
    ground: Ghost<Terrain>,
}

/// The nodes of each chunk are those that lie in it.
pub open spec fn are_members(chunks: Seq<Chunk>, nodes: Nodes) -> bool {
    forall|i: int, id: NodeID|
        0 <= i < chunks.len() ==> (#[trigger] chunks[i].nodes@.contains_key(id)
            <==> nodes.contains_key(id) && chunks[i].tiles().contains(nodes[id].pos))
}

/// The chunks are the first ones that a grid of the given size is divided into.
pub open spec fn are_chunks(chunks: Seq<Chunk>, chunk_size: usize, size: (usize, usize)) -> bool {
    &&& 0 < chunk_size
    &&& forall|i: int|
        0 <= i < chunks.len() ==> {
            &&& (#[trigger] chunks[i]).wf(chunk_size, size)
            &&& chunks[i].pos == chunk_pos(i, chunk_size, size)
        }
}

impl<N: Neighborhood> PathCache<N> {
    /// The width and height of the grid.
    pub closed spec fn size(&self) -> (usize, usize) {
        (self.width, self.height)
    }

    /// The neighborhood of the tiles.
    pub closed spec fn surroundings(&self) -> N {
        self.neighborhood
    }

    /// The settings.
    pub closed spec fn settings(&self) -> PathCacheConfig {
        self.config
    }

    /// The grid for which the cache was created, or updated last.
    pub closed spec fn terrain(&self) -> Terrain {
        self.ground@
    }

    /// The nodes.
    pub closed spec fn graph(&self) -> Nodes {
        self.nodes@
    }

    /// The grid is divided into chunks, and each node belongs to the chunk it lies in.
    pub closed spec fn wf(&self) -> bool {
        &&& self.neighborhood.size() == self.size()
        &&& are_chunks(self.chunks@, self.config.chunk_size, self.size())
        &&& self.num_chunks.0 == chunk_count(self.width as int, self.config.chunk_size as int)
        &&& self.num_chunks.1 == chunk_count(self.height as int, self.config.chunk_size as int)
        &&& self.chunks@.len() == self.num_chunks.0 * self.num_chunks.1
        &&& are_members(self.chunks@, self.nodes@)
        &&& self.nodes.wf()
    }

    /// The cache is that of the given grid.
    pub open spec fn is_valid_for(&self, t: Terrain) -> bool {
        &&& self.wf()
        &&& t.size == self.size()
        &&& is_graph_of(
            t,
            self.settings().chunk_size,
            self.settings().cache_paths,
            self.graph(),
        )
    }

    /// The cache is that of its grid, and the costs of the tiles are not too high.
    pub open spec fn is_valid(&self) -> bool {
        &&& self.is_valid_for(self.terrain())
        &&& is_ground(self.terrain(), self.surroundings())
        &&& fits(self.terrain(), self.settings().chunk_size)
    }

    /// The cost function gives the costs of the grid of the cache.
    pub open spec fn is_ready_for<F: FnMut(Point) -> isize>(&self, get_cost: F) -> bool {
        &&& self.is_valid()
        &&& is_cost_fn(get_cost, self.terrain())
    }

    /// Only the nodes and what belongs to them may differ.
    spec fn is_same_frame(&self, other: &Self) -> bool {
        &&& self.size() == other.size()
        &&& self.surroundings() == other.surroundings()
        &&& self.settings() == other.settings()
        &&& self.terrain() == other.terrain()
        &&& self.num_chunks == other.num_chunks
        &&& self.chunks@.len() == other.chunks@.len()
        &&& forall|i: int|
            0 <= i < self.chunks@.len() ==> {
                &&& (#[trigger] self.chunks@[i]).pos == other.chunks@[i].pos
                &&& self.chunks@[i].size == other.chunks@[i].size
                &&& self.chunks@[i].sides == other.chunks@[i].sides
            }
    }

    /// The chunk of a tile.
    proof fn lemma_chunk(&self, p: Point)
        requires
            self.wf(),
            on_grid(p, self.size()),
        ensures
            ({
                let i = chunk_index(p, self.config.chunk_size, self.size());
                &&& 0 <= i < self.chunks@.len()
                &&& self.chunks@[i].wf(self.config.chunk_size, self.size())
                &&& self.chunks@[i].tiles() == region_of(p, self.config.chunk_size, self.size())
                &&& self.chunks@[i].tiles().contains(p)
                &&& self.chunks@[i].pos == chunk_pos(i, self.config.chunk_size, self.size())
            }),
    {
        let i = chunk_index(p, self.config.chunk_size, self.size());
        lemma_chunk_index(p, self.config.chunk_size, self.size());
        self.chunks@[i].lemma_tiles(self.config.chunk_size, self.size(), p);
    }

    /// What is known of the nodes of a valid cache.
    pub proof fn lemma_nodes(&self)
        requires
            self.wf(),
        ensures
            0 < self.settings().chunk_size,
            self.surroundings().size() == self.size(),
            self.graph().dom().finite(),
            has_unique_positions(self.graph()),
    {
        self.nodes.lemma_finite();
        self.nodes.lemma_positions();
    }

    /// Whether the point lies on the grid.
    pub fn in_bounds(&self, point: Point) -> (inside: bool)
        ensures
            inside == on_grid(point, self.size()),
    {
        point.0 < self.width && point.1 < self.height
    }

    /// The position of the chunk that the tile lies in.
    pub fn get_chunk_pos(&self, point: Point) -> (pos: Point)
        requires
            self.wf(),
        ensures
            pos == chunk_start(point, self.settings().chunk_size),
            pos.0 == point.0 / self.settings().chunk_size * self.settings().chunk_size,
            pos.1 == point.1 / self.settings().chunk_size * self.settings().chunk_size,
            is_chunk_start(pos.0, point.0, self.settings().chunk_size),
            is_chunk_start(pos.1, point.1, self.settings().chunk_size),
            on_grid(point, self.size()) ==> {
                &&& on_grid(pos, self.size())
                &&& pos == chunk_pos(
                    chunk_index(point, self.settings().chunk_size, self.size()),
                    self.settings().chunk_size,
                    self.size(),
                )
                &&& region_of(point, self.settings().chunk_size, self.size()).left == pos.0
                &&& region_of(point, self.settings().chunk_size, self.size()).top == pos.1
            },
    {
        let size: usize = self.config.chunk_size;
        proof {
            lemma_chunk_start(point.0, size);
            lemma_chunk_start(point.1, size);
            if on_grid(point, self.size()) {
                self.lemma_chunk(point);
                lemma_chunk_index(point, size, self.size());
            }
        }
        ((point.0 / size) * size, (point.1 / size) * size)
    }

    /// The chunk that the tile lies in.
    fn get_chunk(&self, point: Point) -> (chunk: &Chunk)
        requires
            self.wf(),
            on_grid(point, self.size()),
        ensures
            *chunk == self.chunks@[chunk_index(point, self.config.chunk_size, self.size())],
            chunk.wf(self.config.chunk_size, self.size()),
            chunk.tiles() == region_of(point, self.config.chunk_size, self.size()),
            chunk.tiles().contains(point),
    {
        proof {
            self.lemma_chunk(point);
        }
        let index: usize = self.get_chunk_index(point);
        &self.chunks[index]
    }

    /// The index of the chunk that the tile lies in.
    pub fn get_chunk_index(&self, point: Point) -> (index: usize)
        requires
            self.wf(),
            on_grid(point, self.size()) || chunk_index(
                point,
                self.settings().chunk_size,
                self.size(),
            ) <= usize::MAX,
        ensures
            index == chunk_index(point, self.settings().chunk_size, self.size()),
    {
        let size: usize = self.config.chunk_size;
        let (x, y) = (point.0 / size, point.1 / size);
        proof {
            if on_grid(point, self.size()) {
                self.lemma_chunk(point);
                lemma_chunk_index(point, size, self.size());
                assert(self.chunks.len() == self.chunks@.len());
            }
            assert(0 <= y * self.num_chunks.0) by (nonlinear_arith)
                requires
                    0 <= y,
                    0 <= self.num_chunks.0,
            ;
        }
        y * self.num_chunks.0 + x
    }

    /// Whether two tiles lie in the same chunk.
    pub fn same_chunk(&self, a: Point, b: Point) -> (same: bool)
        requires
            self.wf(),
        ensures
            same == (a.0 / self.settings().chunk_size == b.0 / self.settings().chunk_size && a.1
                / self.settings().chunk_size == b.1 / self.settings().chunk_size),
            on_grid(a, self.size()) && on_grid(b, self.size()) ==> same == (region_of(
                a,
                self.settings().chunk_size,
                self.size(),
            ) == region_of(b, self.settings().chunk_size, self.size())),
    {
        let size: usize = self.config.chunk_size;
        proof {
            if on_grid(a, self.size()) && on_grid(b, self.size()) {
                lemma_same_chunk(a, b, size, self.size());
            }
        }
        a.0 / size == b.0 / size && a.1 / size == b.1 / size
    }

    /// The node at a position.
    fn node_at(&self, pos: Point) -> (id: Option<NodeID>)
        requires
            self.nodes.wf(),
        ensures
            match id {
                Some(id) => self.nodes@.contains_key(id) && self.nodes@[id].pos == pos,
                None => forall|id: NodeID| #[trigger]
                    self.nodes@.contains_key(id) ==> self.nodes@[id].pos != pos,
            },
    {
        self.nodes.id_at(pos)
    }

    /// The settings with which the cache was created.
    pub fn config(&self) -> (config: &PathCacheConfig)
        ensures
            *config == self.settings(),
    {
        &self.config
    }
}

/// Nodes with similar connections stand for the same grid.
proof fn lemma_similar_graph(
    t: Terrain,
    chunk_size: usize,
    known: bool,
    nodes: Nodes,
    copies: Nodes,
)
    requires
        is_graph_of(t, chunk_size, known, nodes),
        copies.dom() == nodes.dom(),
        forall|id: NodeID| #[trigger]
            nodes.contains_key(id) ==> is_similar(nodes[id], copies[id]),
    ensures
        is_graph_of(t, chunk_size, known, copies),
{
    assert forall|a: NodeID| #[trigger] copies.contains_key(a) implies {
        &&& nodes.contains_key(a)
        &&& is_similar(nodes[a], copies[a])
        &&& is_node_sound(t, chunk_size, copies[a])
    } by {
        assert(copies.dom().contains(a));
        assert(nodes.contains_key(a));
        assert(is_node_sound(t, chunk_size, nodes[a]));
    }
    assert forall|a: NodeID, b: NodeID|
        copies.contains_key(a) && #[trigger] copies[a].edges.contains_key(b) implies {
        &&& copies.contains_key(b)
        &&& a != b
        &&& is_link(t, chunk_size, copies[a].pos, copies[b].pos, copies[a].edges[b])
        &&& copies[a].edges[b] is Known == known
    } by {
        assert(copies[a].edges.dom().contains(b));
        assert(nodes[a].edges.contains_key(b));
        assert(copies.dom().contains(b));
        assert(copies.contains_key(b));
        let (path, copy) = (nodes[a].edges[b], copies[a].edges[b]);
        let s = choose|s: Seq<Point>| #[trigger]
            is_link_over(t, chunk_size, nodes[a].pos, nodes[b].pos, path, s);
        assert(path.matches(s));
        assert(copy.matches(s));
        assert(is_link_over(t, chunk_size, copies[a].pos, copies[b].pos, copy, s));
    }
    assert forall|a: NodeID, b: NodeID|
        copies.contains_key(a) && copies.contains_key(b) implies #[trigger] is_linked_inside(
        t,
        chunk_size,
        copies,
        a,
        b,
    ) by {
        assert(is_linked_inside(t, chunk_size, nodes, a, b));
        assert(nodes[a].edges.dom().contains(b) == copies[a].edges.dom().contains(b));
    }
    assert forall|a: NodeID, b: NodeID|
        copies.contains_key(a) && copies.contains_key(b) implies #[trigger] is_linked_across(
        t,
        chunk_size,
        copies,
        a,
        b,
    ) by {
        assert(is_linked_across(t, chunk_size, nodes, a, b));
        assert(nodes[a].edges.dom().contains(b) == copies[a].edges.dom().contains(b));
    }
    assert forall|p: Point| #[trigger] is_entrance(t, chunk_size, p) implies has_node_at(
        copies,
        p,
    ) by {
        assert(has_node_at(nodes, p));
        let a = choose|a: NodeID| #[trigger] nodes.contains_key(a) && nodes[a].pos == p;
        assert(copies.dom().contains(a));
        assert(copies.contains_key(a) && copies[a].pos == p);
    }
}

impl<N: Neighborhood> Clone for PathCache<N> {
    fn clone(&self) -> (copy: Self)
        ensures
            copy.size() == self.size(),
            copy.settings() == self.settings(),
            copy.terrain() == self.terrain(),
            cloned(self.surroundings(), copy.surroundings()),
            self.wf() ==> {
                &&& copy.wf()
                &&& copy.graph().dom() == self.graph().dom()
                &&& forall|id: NodeID| #[trigger]
                    self.graph().contains_key(id) ==> is_similar(
                        self.graph()[id],
                        copy.graph()[id],
                    )
            },
            self.is_valid() ==> copy.is_valid(),
    {
        let mut chunks: Vec<Chunk> = Vec::new();
        for i in 0..self.chunks.len()
            invariant
                chunks@.len() == i,
                forall|k: int|
                    0 <= k < i ==> {
                        &&& (#[trigger] chunks@[k]).pos == self.chunks@[k].pos
                        &&& chunks@[k].size == self.chunks@[k].size
                        &&& chunks@[k].sides == self.chunks@[k].sides
                        &&& chunks@[k].nodes.wf()
                        &&& self.chunks@[k].nodes.wf() ==> chunks@[k].nodes@.dom()
                            == self.chunks@[k].nodes@.dom()
                    },
        {
            chunks.push(self.chunks[i].clone());
        }
        let copy = PathCache {
            width: self.width,
            height: self.height,
            chunks,
            num_chunks: self.num_chunks,
            nodes: self.nodes.clone(),
            neighborhood: self.neighborhood.clone(),
            config: self.config,
            ground: self.ground,
        };
        proof {
            N::lemma_clone(self.neighborhood, copy.neighborhood);
            if self.wf() {
                let (cs, size) = (self.config.chunk_size, self.size());
                assert forall|i: int| 0 <= i < copy.chunks@.len() implies {
                    &&& (#[trigger] copy.chunks@[i]).wf(cs, size)
                    &&& copy.chunks@[i].pos == chunk_pos(i, cs, size)
                } by {
                    assert(self.chunks@[i].wf(cs, size));
                    assert(copy.chunks@[i].tiles() == self.chunks@[i].tiles());
                }
                assert forall|i: int, id: NodeID| 0 <= i < copy.chunks@.len() implies (
                #[trigger] copy.chunks@[i].nodes@.contains_key(id) <==> copy.nodes@.contains_key(id)
                    && copy.chunks@[i].tiles().contains(copy.nodes@[id].pos)) by {
                    assert(self.chunks@[i].wf(cs, size));
                    assert(self.chunks@[i].nodes@.contains_key(id) <==> self.nodes@.contains_key(id)
                        && self.chunks@[i].tiles().contains(self.nodes@[id].pos));
                    assert(copy.chunks@[i].nodes@.dom().contains(id)
                        == self.chunks@[i].nodes@.dom().contains(id));
                    assert(copy.nodes@.dom().contains(id) == self.nodes@.dom().contains(id));
                    assert(copy.chunks@[i].tiles() == self.chunks@[i].tiles());
                }
                assert(copy.wf());
            }
            if self.is_valid() {
                lemma_similar_graph(
                    self.terrain(),
                    self.config.chunk_size,
                    self.config.cache_paths,
                    self.nodes@,
                    copy.nodes@,
                );
            }
        }
        copy
    }
}

} // verus!
