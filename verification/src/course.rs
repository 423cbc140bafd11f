//! The course of a best-first search: it is fixed by the graph, the start, and the ranks.
//!
//! A search finishes one vertex after the other, always that of lowest rank among those it
//! has reached, and of several that of the lowest number. Where it looks for a goal is
//! therefore the same each time, and so is the path that it finds.

use vstd::prelude::*;

use crate::key_map::MapKey;
use crate::search::Reached;
use crate::walk::Edges;
use crate::Cost;

verus! {

/// The rank of a vertex that was reached at the given cost.
pub type Ranks<V> = spec_fn(V, Cost) -> Cost;

/// Vertices are ranked by their costs.
pub open spec fn by_cost<V>() -> Ranks<V> {
    |v: V, cost: Cost| cost
}

/// Vertices are ranked by their costs and the estimated rest of the way.
pub open spec fn by_estimate<V>(estimate: spec_fn(V) -> Cost) -> Ranks<V> {
    |v: V, cost: Cost|
        if cost + estimate(v) <= usize::MAX {
            (cost + estimate(v)) as Cost
        } else {
            usize::MAX
        }
}

/// The vertex finished last reaches `v` for the first time, or at a lower cost than known.
pub open spec fn is_improved<V>(e: Edges<V>, best: Reached<V>, order: Seq<V>, v: V) -> bool {
    let u = order.last();
    &&& e(u, v) is Some
    &&& !order.contains(v)
    &&& !best.contains_key(v) || best[u].0 + e(u, v)->0 < best[v].0
}

/// What is known once the vertex finished last has been expanded.
pub open spec fn expanded<V>(e: Edges<V>, best: Reached<V>, order: Seq<V>) -> Reached<V> {
    let u = order.last();
    Map::new(
        |v: V| best.contains_key(v) || is_improved(e, best, order, v),
        |v: V|
            if is_improved(e, best, order, v) {
                ((best[u].0 + e(u, v)->0) as Cost, u)
            } else {
                best[v]
            },
    )
}

/// What is known once the given vertices have been finished and expanded.
#[verifier::opaque]
pub open spec fn reached<V>(e: Edges<V>, start: V, order: Seq<V>) -> Reached<V>
    decreases order.len(),
{
    if order.len() == 0 {
        Map::empty().insert(start, (0 as Cost, start))
    } else {
        expanded(e, reached(e, start, order.drop_last()), order)
    }
}

/// The vertex is the one to be finished next.
#[verifier::opaque]
pub open spec fn is_next<V: MapKey>(
    best: Reached<V>,
    order: Seq<V>,
    rank: Ranks<V>,
    v: V,
) -> bool {
    &&& best.contains_key(v)
    &&& !order.contains(v)
    &&& forall|w: V|
        #![trigger best.contains_key(w)]
        best.contains_key(w) && !order.contains(w) ==> {
            ||| rank(v, best[v].0) < rank(w, best[w].0)
            ||| rank(v, best[v].0) == rank(w, best[w].0) && v.code() <= w.code()
        }
}

/// A search from `start` finishes these vertices first, in this order.
#[verifier::opaque]
pub open spec fn is_course<V: MapKey>(
    e: Edges<V>,
    rank: Ranks<V>,
    start: V,
    order: Seq<V>,
) -> bool {
    forall|i: int|
        0 <= i < order.len() ==> is_next(
            reached(e, start, order.take(i)),
            order.take(i),
            rank,
            #[trigger] order[i],
        )
}

/// The `i`-th vertex was reached from the one before it.
pub open spec fn follows<V>(best: Reached<V>, start: V, path: Seq<V>, i: int) -> bool {
    path[i] != start && best[path[i]].1 == path[i - 1]
}

/// The vertices lead from `start` to `goal`, each reached from the one before it.
pub open spec fn is_trace<V>(
    best: Reached<V>,
    order: Seq<V>,
    start: V,
    goal: V,
    path: Seq<V>,
) -> bool {
    &&& path.len() > 0
    &&& path[0] == start
    &&& path.last() == goal
    &&& forall|i: int| 0 <= i < path.len() ==> order.contains(#[trigger] path[i])
    &&& forall|i: int| 0 < i < path.len() ==> #[trigger] follows(best, start, path, i)
}

/// The search comes to the goal over the vertices of `path`, at the given cost.
pub open spec fn is_found_in<V: MapKey>(
    e: Edges<V>,
    rank: Ranks<V>,
    start: V,
    goal: V,
    path: Seq<V>,
    cost: nat,
    order: Seq<V>,
) -> bool {
    &&& is_course(e, rank, start, order)
    &&& is_trace(reached(e, start, order), order, start, goal, path)
    &&& reached(e, start, order)[goal].0 == cost
}

/// The path is the one by which a search from `start` comes to `goal`.
pub open spec fn is_found<V: MapKey>(
    e: Edges<V>,
    rank: Ranks<V>,
    start: V,
    goal: V,
    path: Seq<V>,
    cost: nat,
) -> bool {
    exists|order: Seq<V>| #[trigger] is_found_in(e, rank, start, goal, path, cost, order)
}

/// Of the goals, the search finishes the last vertex of `order` first.
pub open spec fn is_first_in<V: MapKey>(
    e: Edges<V>,
    rank: Ranks<V>,
    start: V,
    goals: Set<V>,
    goal: V,
    order: Seq<V>,
) -> bool {
    &&& is_course(e, rank, start, order)
    &&& order.len() > 0
    &&& order.last() == goal
    &&& goals.contains(goal)
    &&& forall|i: int| 0 <= i < order.len() - 1 ==> !goals.contains(#[trigger] order[i])
}

/// Of the goals, the search comes to this one first.
pub open spec fn is_first<V: MapKey>(
    e: Edges<V>,
    rank: Ranks<V>,
    start: V,
    goals: Set<V>,
    goal: V,
) -> bool {
    exists|order: Seq<V>| #[trigger] is_first_in(e, rank, start, goals, goal, order)
}

/// At first the start alone is known.
pub proof fn lemma_reached_begins<V>(e: Edges<V>, start: V)
    ensures
        reached(e, start, Seq::<V>::empty()) == Map::<V, (Cost, V)>::empty().insert(
            start,
            (0 as Cost, start),
        ),
{
    reveal(reached);
}

/// The vertex finished last has been expanded.
pub proof fn lemma_reached_goes_on<V>(e: Edges<V>, start: V, order: Seq<V>)
    requires
        order.len() > 0,
    ensures
        reached(e, start, order) == expanded(e, reached(e, start, order.drop_last()), order),
{
    reveal(reached);
}

/// What is known while the vertex finished last is being expanded: the vertices of `done`
/// have been looked at.
pub open spec fn partly_expanded<V>(
    e: Edges<V>,
    best: Reached<V>,
    order: Seq<V>,
    done: Set<V>,
) -> Reached<V> {
    let u = order.last();
    Map::new(
        |v: V| best.contains_key(v) || (done.contains(v) && is_improved(e, best, order, v)),
        |v: V|
            if done.contains(v) && is_improved(e, best, order, v) {
                ((best[u].0 + e(u, v)->0) as Cost, u)
            } else {
                best[v]
            },
    )
}

/// Before the expansion nothing has changed.
pub proof fn lemma_expansion_begins<V>(e: Edges<V>, best: Reached<V>, order: Seq<V>)
    ensures
        partly_expanded(e, best, order, Set::<V>::empty()) == best,
{
    assert(partly_expanded(e, best, order, Set::<V>::empty()) =~= best);
}

/// One more vertex has been looked at.
pub proof fn lemma_expansion_goes_on<V>(
    e: Edges<V>,
    best: Reached<V>,
    order: Seq<V>,
    done: Set<V>,
    v: V,
    cost: Cost,
)
    requires
        e(order.last(), v) is Some,
        cost == best[order.last()].0 + e(order.last(), v)->0,
    ensures
        ({
            let before = partly_expanded(e, best, order, done);
            partly_expanded(e, best, order, done.insert(v)) == if order.contains(v) || (
            before.contains_key(v) && before[v].0 <= cost) {
                before
            } else {
                before.insert(v, (cost, order.last()))
            }
        }),
{
    let before = partly_expanded(e, best, order, done);
    let after = partly_expanded(e, best, order, done.insert(v));
    if order.contains(v) || (before.contains_key(v) && before[v].0 <= cost) {
        assert(after =~= before);
    } else {
        assert(after =~= before.insert(v, (cost, order.last())));
    }
}

/// All vertices that the expansion can improve have been looked at.
pub proof fn lemma_expansion_ends<V>(
    e: Edges<V>,
    best: Reached<V>,
    order: Seq<V>,
    done: Set<V>,
)
    requires
        forall|v: V| (#[trigger] e(order.last(), v)) is Some ==> done.contains(v),
    ensures
        partly_expanded(e, best, order, done) == expanded(e, best, order),
{
    assert forall|v: V| #[trigger] is_improved(e, best, order, v) implies done.contains(v) by {
        assert(e(order.last(), v) is Some);
    }
    assert(partly_expanded(e, best, order, done) =~= expanded(e, best, order));
}

/// A search begins with nothing finished.
pub proof fn lemma_course_begins<V: MapKey>(e: Edges<V>, rank: Ranks<V>, start: V)
    ensures
        is_course(e, rank, start, Seq::<V>::empty()),
{
    reveal(is_course);
}

/// The next vertex continues the course.
pub proof fn lemma_course_goes_on<V: MapKey>(
    e: Edges<V>,
    rank: Ranks<V>,
    start: V,
    order: Seq<V>,
    v: V,
)
    requires
        is_course(e, rank, start, order),
        is_next(reached(e, start, order), order, rank, v),
    ensures
        is_course(e, rank, start, order.push(v)),
{
    reveal(is_course);
    let next = order.push(v);
    assert forall|i: int| 0 <= i < next.len() implies is_next(
        reached(e, start, next.take(i)),
        next.take(i),
        rank,
        #[trigger] next[i],
    ) by {
        assert(next.take(i) =~= order.take(i));
        if i < order.len() {
            assert(next[i] == order[i]);
        } else {
            assert(order.take(i) =~= order);
        }
    }
}

/// What is known of a vertex does not change once it is finished.
pub proof fn lemma_finished_stays<V>(e: Edges<V>, start: V, order: Seq<V>, k: int, v: V)
    requires
        0 <= k <= order.len(),
        reached(e, start, order.take(k)).contains_key(v),
        order.take(k).contains(v) || k < order.len() && order[k] == v,
    ensures
        reached(e, start, order).contains_key(v),
        reached(e, start, order)[v] == reached(e, start, order.take(k))[v],
    decreases order.len() - k,
{
    if k == order.len() {
        assert(order.take(k) =~= order);
    } else {
        let next = order.take(k + 1);
        assert(next.drop_last() =~= order.take(k));
        lemma_reached_goes_on(e, start, next);
        assert(next.contains(v)) by {
            if order[k] == v {
                assert(next[k] == v);
            } else {
                let i = choose|i: int| 0 <= i < k && order.take(k)[i] == v;
                assert(next[i] == v);
            }
        }
        lemma_finished_stays(e, start, order, k + 1, v);
    }
}

/// The vertices over which a finished vertex was reached are those by which the search comes
/// to it, also if the vertex finished last has not been expanded.
pub proof fn lemma_trace_found<V: MapKey>(
    e: Edges<V>,
    rank: Ranks<V>,
    start: V,
    goal: V,
    path: Seq<V>,
    order: Seq<V>,
    n: int,
)
    requires
        is_course(e, rank, start, order),
        0 <= n <= order.len() <= n + 1,
        forall|i: int|
            0 <= i < order.len() ==> reached(e, start, order.take(n)).contains_key(
                #[trigger] order[i],
            ),
        is_trace(reached(e, start, order.take(n)), order, start, goal, path),
    ensures
        is_found(
            e,
            rank,
            start,
            goal,
            path,
            reached(e, start, order.take(n))[goal].0 as nat,
        ),
{
    let best = reached(e, start, order.take(n));
    let all = reached(e, start, order);
    assert forall|v: V| #[trigger] order.contains(v) implies all[v] == best[v] by {
        let i = choose|i: int| 0 <= i < order.len() && order[i] == v;
        assert(best.contains_key(order[i]));
        if i < n {
            assert(order.take(n)[i] == v);
        }
        lemma_finished_stays(e, start, order, n, v);
    }
    assert forall|i: int| 0 < i < path.len() implies #[trigger] follows(all, start, path, i) by {
        assert(follows(best, start, path, i));
        assert(order.contains(path[i]));
    }
    assert(order.contains(path[path.len() - 1]));
    assert(is_found_in(e, rank, start, goal, path, best[goal].0 as nat, order));
}

/// The shorter of two courses is the beginning of the longer one.
pub proof fn lemma_courses_agree<V: MapKey>(
    e: Edges<V>,
    rank: Ranks<V>,
    start: V,
    one: Seq<V>,
    other: Seq<V>,
    n: int,
)
    requires
        is_course(e, rank, start, one),
        is_course(e, rank, start, other),
        0 <= n <= one.len(),
        n <= other.len(),
    ensures
        one.take(n) == other.take(n),
    decreases n,
{
    if n > 0 {
        lemma_courses_agree(e, rank, start, one, other, n - 1);
        reveal(is_course);
        reveal(is_next);
        let (v, w) = (one[n - 1], other[n - 1]);
        let best = reached(e, start, one.take(n - 1));
        assert(is_next(best, one.take(n - 1), rank, v));
        assert(is_next(best, one.take(n - 1), rank, w));
        V::lemma_code(v, w);
        assert(one.take(n) =~= one.take(n - 1).push(v));
        assert(other.take(n) =~= other.take(n - 1).push(w));
    } else {
        assert(one.take(0) =~= other.take(0));
    }
}

/// From the goal back, the two paths are the same.
proof fn lemma_traces_agree<V>(
    best: Reached<V>,
    other_best: Reached<V>,
    order: Seq<V>,
    other_order: Seq<V>,
    start: V,
    goal: V,
    one: Seq<V>,
    other: Seq<V>,
    k: int,
)
    requires
        is_trace(best, order, start, goal, one),
        is_trace(other_best, other_order, start, goal, other),
        forall|v: V| #[trigger] order.contains(v) ==> best[v] == other_best[v],
        0 <= k < one.len(),
        k < other.len(),
    ensures
        one[one.len() - 1 - k] == other[other.len() - 1 - k],
    decreases k,
{
    if k > 0 {
        lemma_traces_agree(best, other_best, order, other_order, start, goal, one, other, k - 1);
        let v = one[one.len() - k];
        assert(order.contains(v));
        assert(other[other.len() - k] == v);
        assert(follows(best, start, one, one.len() - k));
        assert(follows(other_best, start, other, other.len() - k));
    }
}

/// What is known of the vertices finished by the shorter of two courses is known after the
/// longer one.
proof fn lemma_known_alike<V: MapKey>(
    e: Edges<V>,
    rank: Ranks<V>,
    start: V,
    short: Seq<V>,
    long: Seq<V>,
    v: V,
)
    requires
        is_course(e, rank, start, short),
        is_course(e, rank, start, long),
        short.len() <= long.len(),
        short.contains(v),
    ensures
        reached(e, start, short)[v] == reached(e, start, long)[v],
{
    let n = short.len() as int;
    lemma_courses_agree(e, rank, start, short, long, n);
    assert(short.take(n) =~= short);
    lemma_course_known(e, rank, start, short, v);
    lemma_finished_stays(e, start, long, n, v);
}

/// The vertices of a course have been reached.
pub proof fn lemma_course_known<V: MapKey>(
    e: Edges<V>,
    rank: Ranks<V>,
    start: V,
    order: Seq<V>,
    v: V,
)
    requires
        is_course(e, rank, start, order),
        order.contains(v),
    ensures
        reached(e, start, order).contains_key(v),
{
    reveal(is_course);
    reveal(is_next);
    let i = choose|i: int| 0 <= i < order.len() && order[i] == v;
    assert(is_next(reached(e, start, order.take(i)), order.take(i), rank, order[i]));
    lemma_finished_stays(e, start, order, i, v);
}

proof fn lemma_found_in_alike<V: MapKey>(
    e: Edges<V>,
    rank: Ranks<V>,
    start: V,
    goal: V,
    short: Seq<V>,
    long: Seq<V>,
    one: Seq<V>,
    other: Seq<V>,
    cost: nat,
    other_cost: nat,
)
    requires
        short.len() <= long.len(),
        is_found_in(e, rank, start, goal, one, cost, short),
        is_found_in(e, rank, start, goal, other, other_cost, long),
    ensures
        one == other,
        cost == other_cost,
{
    assert(short.contains(one[one.len() - 1]));
    lemma_known_alike(e, rank, start, short, long, goal);
    let (best, other_best) = (reached(e, start, short), reached(e, start, long));
    assert forall|v: V| #[trigger] short.contains(v) implies best[v] == other_best[v] by {
        lemma_known_alike(e, rank, start, short, long, v);
    }
    let (m, n) = (one.len() as int, other.len() as int);
    if m < n {
        lemma_traces_agree(best, other_best, short, long, start, goal, one, other, m - 1);
        assert(follows(other_best, start, other, n - m));
    } else if n < m {
        lemma_traces_agree(best, other_best, short, long, start, goal, one, other, n - 1);
        assert(follows(best, start, one, m - n));
    }
    assert forall|i: int| 0 <= i < m implies one[i] == other[i] by {
        lemma_traces_agree(best, other_best, short, long, start, goal, one, other, m - 1 - i);
    }
    assert(one =~= other);
}

/// A search comes to a goal by one path only.
pub proof fn lemma_found_alike<V: MapKey>(
    e: Edges<V>,
    rank: Ranks<V>,
    start: V,
    goal: V,
    one: Seq<V>,
    other: Seq<V>,
    cost: nat,
    other_cost: nat,
)
    requires
        is_found(e, rank, start, goal, one, cost),
        is_found(e, rank, start, goal, other, other_cost),
    ensures
        one == other,
        cost == other_cost,
{
    let a = choose|order: Seq<V>| #[trigger]
        is_found_in(e, rank, start, goal, one, cost, order);
    let b = choose|order: Seq<V>| #[trigger]
        is_found_in(e, rank, start, goal, other, other_cost, order);
    if a.len() <= b.len() {
        lemma_found_in_alike(e, rank, start, goal, a, b, one, other, cost, other_cost);
    } else {
        lemma_found_in_alike(e, rank, start, goal, b, a, other, one, other_cost, cost);
    }
}

/// A search comes to one of the goals first.
pub proof fn lemma_first_alike<V: MapKey>(
    e: Edges<V>,
    rank: Ranks<V>,
    start: V,
    goals: Set<V>,
    one: V,
    other: V,
)
    requires
        is_first(e, rank, start, goals, one),
        is_first(e, rank, start, goals, other),
    ensures
        one == other,
{
    let a = choose|order: Seq<V>| #[trigger] is_first_in(e, rank, start, goals, one, order);
    let b = choose|order: Seq<V>| #[trigger] is_first_in(e, rank, start, goals, other, order);
    let (m, n) = (a.len() as int, b.len() as int);
    if m <= n {
        lemma_courses_agree(e, rank, start, a, b, m);
        assert(a.take(m)[m - 1] == b.take(m)[m - 1]);
        if m < n {
            assert(!goals.contains(b[m - 1]));
        }
    } else {
        lemma_courses_agree(e, rank, start, a, b, n);
        assert(a.take(n)[n - 1] == b.take(n)[n - 1]);
        assert(!goals.contains(a[n - 1]));
    }
}

} // verus!
