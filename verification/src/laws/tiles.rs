//! What holds of paths, in terms of the costs of the tiles on the way.

use vstd::prelude::*;

use crate::abstract_path::AbstractPath;
use crate::neighbors::Neighborhood;
use crate::path_cache::PathCache;
use crate::path_cache::layout::{lemma_region_of, lemma_same_chunk, region_of};
use crate::search::is_cheapest;
use crate::terrain::{Region, Terrain};
use crate::walk::{connects, is_walk, linked, walk_cost};
use crate::Point;

verus! {

/// The tile lies on the grid, and walking over it costs something or nothing.
pub open spec fn is_free(t: Terrain, p: Point) -> bool {
    p.0 < t.size.0 && p.1 < t.size.1 && (t.cost)(p) >= 0
}

/// The tiles can be walked over, one after the other.
pub open spec fn is_trail(t: Terrain, s: Seq<Point>) -> bool {
    &&& s.len() > 0
    &&& forall|i: int| 0 <= i < s.len() ==> is_free(t, #[trigger] s[i])
    &&& forall|i: int, j: int|
        0 <= i < s.len() && j == i + 1 && j < s.len() ==> (t.adjacent)(
            #[trigger] s[i],
            #[trigger] s[j],
        )
}

/// The tiles can be walked over, one after the other, from `a` to `b`.
pub open spec fn is_trail_between(t: Terrain, s: Seq<Point>, a: Point, b: Point) -> bool {
    is_trail(t, s) && s[0] == a && s.last() == b
}

/// The sum of the costs of all tiles but the last.
pub open spec fn trail_cost(t: Terrain, s: Seq<Point>) -> int
    decreases s.len(),
{
    if s.len() <= 1 {
        0
    } else {
        trail_cost(t, s.drop_last()) + (t.cost)(s[s.len() - 2])
    }
}

/// The columns and the rows of the tiles lie in the same chunk.
pub open spec fn is_same_square(chunk_size: usize, a: Point, b: Point) -> bool {
    a.0 / chunk_size == b.0 / chunk_size && a.1 / chunk_size == b.1 / chunk_size
}

/// All of the tiles lie in the chunk of `p`.
pub open spec fn is_within(chunk_size: usize, p: Point, s: Seq<Point>) -> bool {
    forall|i: int| 0 <= i < s.len() ==> is_same_square(chunk_size, p, #[trigger] s[i])
}

/// A tile lies in the chunk of another one if and only if it is a tile of the grid and its
/// column and its row lie in the same chunk.
pub proof fn law_chunks_are_squares(p: Point, q: Point, chunk_size: usize, size: (usize, usize))
    requires
        0 < chunk_size,
        p.0 < size.0,
        p.1 < size.1,
    ensures
        region_of(p, chunk_size, size).contains(q) <==> q.0 < size.0 && q.1 < size.1
            && is_same_square(chunk_size, p, q),
        q.0 < size.0 && q.1 < size.1 ==> (region_of(p, chunk_size, size) == region_of(
            q,
            chunk_size,
            size,
        ) <==> is_same_square(chunk_size, p, q)),
{
    lemma_region_of(p, chunk_size, size);
    if q.0 < size.0 && q.1 < size.1 {
        lemma_region_of(q, chunk_size, size);
        lemma_same_chunk(p, q, chunk_size, size);
    }
}

/// Such tiles are a walk, at the same cost, in each rectangle that holds them.
pub proof fn lemma_trail_is_walk(t: Terrain, r: Region, s: Seq<Point>)
    requires
        is_trail(t, s),
        forall|i: int| 0 <= i < s.len() ==> r.contains(#[trigger] s[i]),
    ensures
        connects(t.edges(r), s, s[0], s.last()),
        walk_cost(t.edges(r), s) == trail_cost(t, s),
        t.open(s[0]),
        t.open(s.last()),
    decreases s.len(),
{
    let e = t.edges(r);
    assert(is_free(t, s[0]) && is_free(t, s[s.len() - 1]));
    assert forall|i: int| 0 <= i < s.len() - 1 implies #[trigger] linked(e, s, i) by {
        assert(is_free(t, s[i]) && is_free(t, s[i + 1]));
        assert((t.adjacent)(s[i], s[i + 1]));
        assert(r.contains(s[i]) && r.contains(s[i + 1]));
    }
    if s.len() > 1 {
        let d = s.drop_last();
        assert(is_trail(t, d)) by {
            assert forall|i: int, j: int|
                0 <= i < d.len() && j == i + 1 && j < d.len() implies (t.adjacent)(
                #[trigger] d[i],
                #[trigger] d[j],
            ) by {
                assert((t.adjacent)(s[i], s[j]));
            }
        }
        lemma_trail_is_walk(t, r, d);
        assert(linked(e, s, s.len() - 2));
    }
}

/// A walk consists of such tiles, and costs as much.
pub proof fn lemma_walk_is_trail(t: Terrain, r: Region, s: Seq<Point>)
    requires
        is_walk(t.edges(r), s),
        t.open(s[0]),
    ensures
        is_trail(t, s),
        walk_cost(t.edges(r), s) == trail_cost(t, s),
        r.contains(s[0]) ==> forall|i: int| 0 <= i < s.len() ==> r.contains(#[trigger] s[i]),
    decreases s.len(),
{
    let e = t.edges(r);
    if s.len() > 1 {
        let d = s.drop_last();
        assert forall|i: int| 0 <= i < d.len() - 1 implies #[trigger] linked(e, d, i) by {
            assert(linked(e, s, i));
        }
        lemma_walk_is_trail(t, r, d);
        assert(linked(e, s, s.len() - 2));
        assert forall|i: int| 0 <= i < s.len() implies is_free(t, #[trigger] s[i]) by {
            if i < d.len() {
                assert(is_free(t, d[i]));
            }
        }
        assert forall|i: int, j: int|
            0 <= i < s.len() && j == i + 1 && j < s.len() implies (t.adjacent)(
            #[trigger] s[i],
            #[trigger] s[j],
        ) by {
            assert(linked(e, s, i));
        }
        assert forall|i: int|
            0 <= i < s.len() && r.contains(s[0]) implies r.contains(#[trigger] s[i]) by {
            if i < d.len() {
                assert(r.contains(d[i]));
            }
        }
    }
}

/// On the whole grid the walks are those over tiles that can be walked over.
pub proof fn lemma_trail_on_grid(t: Terrain, s: Seq<Point>)
    requires
        is_trail(t, s),
    ensures
        connects(t.edges(t.whole()), s, s[0], s.last()),
        walk_cost(t.edges(t.whole()), s) == trail_cost(t, s),
        t.has_path(s[0], s.last()),
{
    assert forall|i: int| 0 <= i < s.len() implies t.whole().contains(#[trigger] s[i]) by {
        assert(is_free(t, s[i]));
    }
    lemma_trail_is_walk(t, t.whole(), s);
}

/// Within a chunk, too.
pub proof fn lemma_trail_in_chunk(t: Terrain, chunk_size: usize, p: Point, s: Seq<Point>)
    requires
        0 < chunk_size,
        is_free(t, p),
        is_trail(t, s),
        is_within(chunk_size, p, s),
    ensures
        connects(t.edges(region_of(p, chunk_size, t.size)), s, s[0], s.last()),
        walk_cost(t.edges(region_of(p, chunk_size, t.size)), s) == trail_cost(t, s),
        t.has_path_in(region_of(p, chunk_size, t.size), s[0], s.last()),
{
    let r = region_of(p, chunk_size, t.size);
    assert forall|i: int| 0 <= i < s.len() implies r.contains(#[trigger] s[i]) by {
        assert(is_free(t, s[i]));
        law_chunks_are_squares(p, s[i], chunk_size, t.size);
    }
    lemma_trail_is_walk(t, r, s);
    assert(r.contains(s[0]) && r.contains(s[s.len() - 1]));
}

/// A path leads from the start to the goal over tiles for which the cost function gives no
/// negative costs, each next to the one before it; and its cost is the sum of the costs of all
/// its tiles but the last.
pub proof fn law_paths_lead_over_open_tiles<N: Neighborhood, F: FnMut(Point) -> isize>(
    cache: PathCache<N>,
    get_cost: F,
    start: Point,
    goal: Point,
    path: AbstractPath<N>,
)
    requires
        cache.is_ready_for(get_cost),
        cache.is_answer(cache.terrain(), start, goal, path),
        start != goal,
        cache.terrain().open(start),
    ensures
        is_trail_between(cache.terrain(), path.route(), start, goal),
        path.total() == trail_cost(cache.terrain(), path.route()),
        path.steps() == path.route().len() - 1,
        forall|i: int|
            0 <= i < path.route().len() ==> {
                &&& (#[trigger] path.route()[i]).0 < cache.size().0
                &&& path.route()[i].1 < cache.size().1
            },
        forall|i: int, c: isize|
            0 <= i < path.route().len() && #[trigger] call_ensures(
                get_cost,
                (path.route()[i],),
                c,
            ) ==> c >= 0 && c == (cache.terrain().cost)(path.route()[i]),
        forall|i: int, j: int|
            0 <= i < path.route().len() && j == i + 1 && j < path.route().len()
                ==> cache.surroundings().adjacent(
                #[trigger] path.route()[i],
                #[trigger] path.route()[j],
            ),
{
    let t = cache.terrain();
    let s = path.route();
    lemma_walk_is_trail(t, t.whole(), s);
    assert forall|i: int, c: isize|
        0 <= i < s.len() && #[trigger] call_ensures(get_cost, (s[i],), c) implies c >= 0 && c == (
    t.cost)(s[i]) by {
        assert(is_free(t, s[i]));
    }
    assert forall|i: int| 0 <= i < s.len() implies {
        &&& (#[trigger] s[i]).0 < cache.size().0
        &&& s[i].1 < cache.size().1
    } by {
        assert(is_free(t, s[i]));
    }
}

/// If there are tiles over which one can get from the start to the goal, there is a path.
pub proof fn law_open_tiles_lead_to_the_goal<N: Neighborhood>(
    cache: PathCache<N>,
    start: Point,
    goal: Point,
    s: Seq<Point>,
)
    requires
        cache.is_valid(),
        is_trail_between(cache.terrain(), s, start, goal),
    ensures
        cache.terrain().has_path(start, goal),
{
    lemma_trail_on_grid(cache.terrain(), s);
}

/// If there is a path, there are tiles over which one can get from the start to the goal.
pub proof fn law_goals_are_reached_over_open_tiles<N: Neighborhood>(
    cache: PathCache<N>,
    start: Point,
    goal: Point,
) -> (s: Seq<Point>)
    requires
        cache.is_valid(),
        cache.terrain().has_path(start, goal),
    ensures
        is_trail_between(cache.terrain(), s, start, goal),
{
    let t = cache.terrain();
    let s = choose|s: Seq<Point>| #[trigger] connects(t.edges(t.whole()), s, start, goal);
    lemma_walk_is_trail(t, t.whole(), s);
    s
}

/// No path costs less than the cheapest tiles over which one can get to the goal.
pub proof fn lemma_cheapest_trail(t: Terrain, start: Point, goal: Point, cost: nat, s: Seq<Point>)
    requires
        is_cheapest(t.edges(t.whole()), start, goal, cost),
        is_trail_between(t, s, start, goal),
    ensures
        cost <= trail_cost(t, s),
{
    lemma_trail_on_grid(t, s);
}

/// The path from a tile to itself costs nothing, and hands out the tile once more.
pub proof fn law_staying_costs_nothing<N: Neighborhood>(
    cache: PathCache<N>,
    start: Point,
    path: AbstractPath<N>,
)
    requires
        cache.is_valid(),
        cache.is_answer(cache.terrain(), start, start, path),
    ensures
        path.total() == 0,
        path.route().len() == 2,
        path.route()[0] == start,
        path.route()[1] == start,
        path.steps() == 1,
        path.next_is_known(),
{
    path.lemma_all_known();
}

/// Of several goals, there is a path to each one to which one can get over open tiles, and to no
/// other; and each of the paths leads from the start to its goal over such tiles, and costs as
/// much as these.
pub proof fn law_each_goal_that_can_be_reached_has_a_path<N: Neighborhood>(
    cache: PathCache<N>,
    start: Point,
    goals: Seq<Point>,
    paths: Map<Point, AbstractPath<N>>,
    goal: Point,
)
    requires
        cache.is_valid(),
        cache.are_answers(cache.terrain(), start, goals, paths),
    ensures
        paths.contains_key(goal) <==> goals.contains(goal) && exists|s: Seq<Point>| #[trigger]
            is_trail_between(cache.terrain(), s, start, goal),
        paths.contains_key(goal) && start != goal ==> {
            &&& is_trail_between(cache.terrain(), paths[goal].route(), start, goal)
            &&& paths[goal].total() == trail_cost(cache.terrain(), paths[goal].route())
        },
        paths.contains_key(goal) && start == goal ==> paths[goal].total() == 0,
{
    let t = cache.terrain();
    if paths.contains_key(goal) {
        let s = law_goals_are_reached_over_open_tiles(cache, start, goal);
        if start != goal {
            lemma_walk_is_trail(t, t.whole(), paths[goal].route());
        }
    }
    if exists|s: Seq<Point>| #[trigger] is_trail_between(t, s, start, goal) {
        let s = choose|s: Seq<Point>| #[trigger] is_trail_between(t, s, start, goal);
        lemma_trail_on_grid(t, s);
    }
}

} // verus!
