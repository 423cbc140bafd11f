//! What a best-first search knows while it runs, and what follows from it.
//!
//! A search keeps, for each vertex that it has reached, the lowest cost found so far and
//! the vertex before it. It finishes one vertex after the other: the one of lowest rank
//! among those reached, and from a finished vertex it reaches the vertices next to it.

use vstd::multiset::Multiset;
use vstd::prelude::*;

use crate::course::{
    follows, is_course, is_first, is_first_in, is_found, is_next, is_trace, lemma_trace_found,
    reached, Ranks,
};
use crate::heap::{comes_first, Heap, QueueEntry};
use crate::key_map::{KeyMap, MapKey};
use crate::path::Path;
use crate::walk::{
    connects, is_walk, lemma_walk_extends, lemma_walk_prepends, lemma_walk_stays, linked, reaches,
    walk_cost, Edges,
};
use crate::Cost;

verus! {

/// For each vertex reached: the lowest cost known, and the vertex before it.
pub type Reached<V> = Map<V, (Cost, V)>;

/// `v` was finished before the `i`-th finished vertex.
pub open spec fn finished_before<V>(order: Seq<V>, v: V, i: int) -> bool {
    exists|j: int| 0 <= j < i && #[trigger] order[j] == v
}

/// `v` was reached from a finished vertex, at the cost of that vertex and of the edge.
pub open spec fn has_parent<V>(e: Edges<V>, best: Reached<V>, order: Seq<V>, v: V) -> bool {
    let u = best[v].1;
    &&& order.contains(u)
    &&& e(u, v) is Some
    &&& best[v].0 == best[u].0 + e(u, v)->0
}

/// The vertices reached form a tree that starts at `start`; no edge costs more than
/// `weight`.
pub open spec fn is_search_tree<V>(
    e: Edges<V>,
    start: V,
    best: Reached<V>,
    order: Seq<V>,
    weight: nat,
) -> bool {
    &&& best.contains_key(start)
    &&& best[start] == (0 as Cost, start)
    &&& order.no_duplicates()
    &&& forall|i: int|
        0 <= i < order.len() ==> {
            &&& best.contains_key(#[trigger] order[i])
            &&& best[order[i]].0 <= i * weight
            &&& order[i] == start || finished_before(order, best[order[i]].1, i)
        }
    &&& forall|v: V| #[trigger]
        best.contains_key(v) ==> {
            &&& best[v].0 <= order.len() * weight
            &&& v == start || has_parent(e, best, order, v)
        }
}

/// Every vertex next to one of the first `n` finished vertices has been reached.
pub open spec fn is_expanded<V>(e: Edges<V>, best: Reached<V>, order: Seq<V>, n: int) -> bool {
    forall|i: int, v: V|
        0 <= i < n && (#[trigger] e(order[i], v)) is Some ==> best.contains_key(v)
}

/// No walk from `a` to `b` costs less than `cost`.
pub open spec fn is_cheapest<V>(e: Edges<V>, a: V, b: V, cost: nat) -> bool {
    forall|s: Seq<V>| #[trigger] connects(e, s, a, b) ==> cost <= walk_cost(e, s)
}

/// `cost` is what the cheapest walk from `a` to `b` costs.
pub open spec fn is_distance<V>(e: Edges<V>, a: V, b: V, cost: nat) -> bool {
    &&& is_cheapest(e, a, b, cost)
    &&& exists|s: Seq<V>| #[trigger] connects(e, s, a, b) && walk_cost(e, s) == cost
}

/// The finished vertices have been reached at the lowest cost there is.
pub open spec fn is_settled<V>(e: Edges<V>, start: V, best: Reached<V>, order: Seq<V>) -> bool {
    forall|i: int|
        0 <= i < order.len() ==> is_cheapest(e, start, #[trigger] order[i], best[order[i]].0 as nat)
}

/// No vertex next to one of the first `n` finished vertices has a cost that the way over
/// that vertex would lower.
pub open spec fn is_relaxed<V>(e: Edges<V>, best: Reached<V>, order: Seq<V>, n: int) -> bool {
    forall|i: int, v: V|
        0 <= i < n && (#[trigger] e(order[i], v)) is Some ==> best.contains_key(v) && best[v].0
            <= best[order[i]].0 + e(order[i], v)->0
}

/// An estimate of the remaining cost that no edge lowers by more than its own cost.
pub open spec fn is_consistent<V>(e: Edges<V>, rest: spec_fn(V) -> nat) -> bool {
    forall|a: V, b: V| (#[trigger] e(a, b)) is Some ==> rest(a) <= e(a, b)->0 + rest(b)
}

/// Entries of a cost up to `limit` are ranked by it plus a consistent estimate of the rest.
pub open spec fn is_guided<V: MapKey, T: QueueEntry<V>>(
    e: Edges<V>,
    estimate: spec_fn(V) -> Cost,
    rest: spec_fn(V) -> nat,
    limit: nat,
) -> bool {
    &&& is_consistent(e, rest)
    &&& forall|v: V, cost: Cost|
        cost <= limit ==> (#[trigger] T::entry(v, cost, estimate(v))).rank() == cost + rest(v)
}

/// The ranks of the entries of a search.
pub open spec fn ranks<V: MapKey, T: QueueEntry<V>>(estimate: spec_fn(V) -> Cost) -> Ranks<V> {
    |v: V, cost: Cost| T::entry(v, cost, estimate(v)).rank()
}

/// Each vertex that was reached but not finished is in the queue at its lowest cost, and
/// no entry is cheaper than what is known of its vertex, or costs more than `limit`.
pub open spec fn is_queued<V: MapKey, T: QueueEntry<V>>(
    estimate: spec_fn(V) -> Cost,
    best: Reached<V>,
    order: Seq<V>,
    queue: Multiset<T>,
    limit: nat,
) -> bool {
    &&& forall|v: V|
        #![trigger best.contains_key(v)]
        best.contains_key(v) && !order.contains(v) ==> queue.contains(
            T::entry(v, best[v].0, estimate(v)),
        )
    &&& forall|x: T| #[trigger]
        queue.contains(x) ==> {
            &&& best.contains_key(x.vertex())
            &&& best[x.vertex()].0 <= x.cost() <= limit
            &&& x == T::entry(x.vertex(), x.cost(), estimate(x.vertex()))
        }
}

/// A vertex that was reached lies at the end of a walk of the known cost.
pub proof fn lemma_tree_walk<V>(
    e: Edges<V>,
    start: V,
    best: Reached<V>,
    order: Seq<V>,
    weight: nat,
    v: V,
) -> (s: Seq<V>)
    requires
        is_search_tree(e, start, best, order, weight),
        best.contains_key(v),
    ensures
        connects(e, s, start, v),
        walk_cost(e, s) == best[v].0,
{
    if v == start {
        seq![v]
    } else {
        let i = choose|i: int| 0 <= i < order.len() && order[i] == best[v].1;
        let r = lemma_tree_walk_finished(e, start, best, order, weight, i);
        lemma_walk_extends(e, r, v);
        r.push(v)
    }
}

proof fn lemma_tree_walk_finished<V>(
    e: Edges<V>,
    start: V,
    best: Reached<V>,
    order: Seq<V>,
    weight: nat,
    i: int,
) -> (s: Seq<V>)
    requires
        is_search_tree(e, start, best, order, weight),
        0 <= i < order.len(),
    ensures
        connects(e, s, start, order[i]),
        walk_cost(e, s) == best[order[i]].0,
    decreases i,
{
    let v = order[i];
    if v == start {
        seq![v]
    } else {
        assert(best.contains_key(v));
        let j = choose|j: int| 0 <= j < i && order[j] == best[v].1;
        let r = lemma_tree_walk_finished(e, start, best, order, weight, j);
        lemma_walk_extends(e, r, v);
        r.push(v)
    }
}

/// Once every vertex that was reached is finished, the vertices reached are those that
/// can be reached at all.
pub proof fn lemma_search_is_exhaustive<V>(
    e: Edges<V>,
    start: V,
    best: Reached<V>,
    order: Seq<V>,
    weight: nat,
    v: V,
)
    requires
        is_search_tree(e, start, best, order, weight),
        is_expanded(e, best, order, order.len() as int),
        forall|u: V| #[trigger] best.contains_key(u) ==> order.contains(u),
    ensures
        best.contains_key(v) <==> reaches(e, start, v),
{
    if best.contains_key(v) {
        let s = lemma_tree_walk(e, start, best, order, weight, v);
        assert(connects(e, s, start, v));
    }
    if reaches(e, start, v) {
        let s = choose|s: Seq<V>| #[trigger] connects(e, s, start, v);
        let inside = |u: V| best.contains_key(u);
        assert forall|a: V, b: V| inside(a) && (#[trigger] e(a, b)) is Some implies inside(b) by {
            assert(order.contains(a));
            let i = choose|i: int| 0 <= i < order.len() && order[i] == a;
            assert(e(order[i], b) is Some);
        }
        lemma_walk_stays(e, inside, s);
        assert(inside(s[s.len() - 1]));
    }
}

/// The open vertex of lowest rank: every walk from the start to a vertex that is not
/// finished costs at least as much, the estimates counted in.
pub proof fn lemma_lowest_rank<V>(
    e: Edges<V>,
    rest: spec_fn(V) -> nat,
    start: V,
    best: Reached<V>,
    order: Seq<V>,
    weight: nat,
    u: V,
    s: Seq<V>,
)
    requires
        is_search_tree(e, start, best, order, weight),
        is_settled(e, start, best, order),
        is_relaxed(e, best, order, order.len() as int),
        is_consistent(e, rest),
        best.contains_key(u),
        forall|v: V|
            #![trigger best.contains_key(v)]
            best.contains_key(v) && !order.contains(v) ==> best[u].0 + rest(u) <= best[v].0 + rest(
                v,
            ),
        is_walk(e, s),
        s[0] == start,
    ensures
        order.contains(s.last()) || best[u].0 + rest(u) <= walk_cost(e, s) + rest(s.last()),
    decreases s.len(),
{
    if s.len() > 1 {
        let r = s.drop_last();
        assert forall|i: int| 0 <= i < r.len() - 1 implies #[trigger] linked(e, r, i) by {
            assert(linked(e, s, i));
        }
        assert(linked(e, s, s.len() - 2));
        lemma_lowest_rank(e, rest, start, best, order, weight, u, r);
        assert(e(r.last(), s.last()) is Some);
        if order.contains(r.last()) {
            let i = choose|i: int| 0 <= i < order.len() && order[i] == r.last();
            assert(is_cheapest(e, start, order[i], best[order[i]].0 as nat));
            assert(connects(e, r, start, order[i]));
            assert(e(order[i], s.last()) is Some);
        }
    } else {
        assert(s.last() == start);
    }
}

/// The open vertex of lowest rank has been reached at the lowest cost there is.
pub proof fn lemma_lowest_is_cheapest<V>(
    e: Edges<V>,
    rest: spec_fn(V) -> nat,
    start: V,
    best: Reached<V>,
    order: Seq<V>,
    weight: nat,
    u: V,
)
    requires
        is_search_tree(e, start, best, order, weight),
        is_settled(e, start, best, order),
        is_relaxed(e, best, order, order.len() as int),
        is_consistent(e, rest),
        best.contains_key(u),
        !order.contains(u),
        forall|v: V|
            #![trigger best.contains_key(v)]
            best.contains_key(v) && !order.contains(v) ==> best[u].0 + rest(u) <= best[v].0 + rest(
                v,
            ),
    ensures
        is_cheapest(e, start, u, best[u].0 as nat),
{
    assert forall|s: Seq<V>| #[trigger] connects(e, s, start, u) implies best[u].0 <= walk_cost(
        e,
        s,
    ) by {
        lemma_lowest_rank(e, rest, start, best, order, weight, u, s);
    }
}

/// Everything that holds between two steps of a search: the first `n` finished vertices
/// have been expanded, and no edge costs more than `weight`.
#[verifier::opaque]
pub open spec fn is_searching<V: MapKey, T: QueueEntry<V>>(
    e: Edges<V>,
    estimate: spec_fn(V) -> Cost,
    rest: spec_fn(V) -> nat,
    start: V,
    best: Reached<V>,
    order: Seq<V>,
    queue: Multiset<T>,
    weight: nat,
    limit: nat,
    n: int,
) -> bool {
    &&& is_search_tree(e, start, best, order, weight)
    &&& is_expanded(e, best, order, n)
    &&& is_queued(estimate, best, order, queue, limit)
    &&& is_guided::<V, T>(e, estimate, rest, limit) ==> {
        &&& is_settled(e, start, best, order)
        &&& is_relaxed(e, best, order, n)
    }
}

/// A search begins with its start alone.
pub proof fn lemma_search_begins<V: MapKey, T: QueueEntry<V>>(
    e: Edges<V>,
    estimate: spec_fn(V) -> Cost,
    rest: spec_fn(V) -> nat,
    start: V,
    weight: nat,
    limit: nat,
)
    ensures
        is_searching::<V, T>(
            e,
            estimate,
            rest,
            start,
            Map::empty().insert(start, (0 as Cost, start)),
            Seq::empty(),
            Multiset::empty().insert(T::entry(start, 0, estimate(start))),
            weight,
            limit,
            0,
        ),
{
    reveal(is_searching);
    T::lemma_entry(start, 0, estimate(start));
    assert forall|x: T| #[trigger]
        Multiset::<T>::empty().insert(T::entry(start, 0, estimate(start))).contains(x) implies x
        == T::entry(start, 0, estimate(start)) by {}
}

/// An entry of a vertex that is finished already can be dropped.
pub proof fn lemma_entry_dropped<V: MapKey, T: QueueEntry<V>>(
    e: Edges<V>,
    estimate: spec_fn(V) -> Cost,
    rest: spec_fn(V) -> nat,
    start: V,
    best: Reached<V>,
    order: Seq<V>,
    queue: Multiset<T>,
    weight: nat,
    limit: nat,
    x: T,
)
    requires
        is_searching(e, estimate, rest, start, best, order, queue, weight, limit, order.len() as int),
        queue.contains(x),
        order.contains(x.vertex()),
    ensures
        is_searching(
            e,
            estimate,
            rest,
            start,
            best,
            order,
            queue.remove(x),
            weight,
            limit,
            order.len() as int,
        ),
{
    reveal(is_searching);
    assert forall|v: V|
        #![trigger best.contains_key(v)]
        best.contains_key(v) && !order.contains(v) implies queue.remove(x).contains(
        T::entry(v, best[v].0, estimate(v)),
    ) by {
        T::lemma_entry(v, best[v].0, estimate(v));
    }
    assert forall|y: T| #[trigger] queue.remove(x).contains(y) implies queue.contains(y) by {}
    assert(is_queued(estimate, best, order, queue.remove(x), limit));
}

/// The vertex of the entry that comes first is the one to be finished next.
pub proof fn lemma_next<V: MapKey, T: QueueEntry<V>>(
    e: Edges<V>,
    estimate: spec_fn(V) -> Cost,
    rest: spec_fn(V) -> nat,
    start: V,
    best: Reached<V>,
    order: Seq<V>,
    queue: Multiset<T>,
    weight: nat,
    limit: nat,
    x: T,
)
    requires
        is_searching(e, estimate, rest, start, best, order, queue, weight, limit, order.len() as int),
        queue.contains(x),
        forall|y: T| #[trigger] queue.contains(y) ==> comes_first(x, y),
        !order.contains(x.vertex()),
    ensures
        is_next(best, order, ranks::<V, T>(estimate), x.vertex()),
{
    reveal(is_searching);
    reveal(is_next);
    let rank = ranks::<V, T>(estimate);
    let v = x.vertex();
    T::lemma_rank(v, best[v].0, x.cost(), estimate(v));
    assert(rank(v, best[v].0) <= x.rank());
    assert forall|w: V|
        #![trigger best.contains_key(w)]
        best.contains_key(w) && !order.contains(w) implies {
        ||| rank(v, best[v].0) < rank(w, best[w].0)
        ||| rank(v, best[v].0) == rank(w, best[w].0) && v.code() <= w.code()
    } by {
        let y = T::entry(w, best[w].0, estimate(w));
        T::lemma_entry(w, best[w].0, estimate(w));
        assert(queue.contains(y));
        assert(comes_first(x, y));
        T::lemma_entry(v, best[v].0, estimate(v));
        T::lemma_rank(w, best[w].0, best[w].0, estimate(w));
    }
}

/// The vertex of the entry of lowest rank can be finished.
pub proof fn lemma_vertex_finished<V: MapKey, T: QueueEntry<V>>(
    e: Edges<V>,
    estimate: spec_fn(V) -> Cost,
    rest: spec_fn(V) -> nat,
    start: V,
    best: Reached<V>,
    order: Seq<V>,
    queue: Multiset<T>,
    weight: nat,
    limit: nat,
    x: T,
)
    requires
        is_searching(e, estimate, rest, start, best, order, queue, weight, limit, order.len() as int),
        queue.contains(x),
        forall|y: T| #[trigger] queue.contains(y) ==> x.rank() <= y.rank(),
        !order.contains(x.vertex()),
    ensures
        is_searching(
            e,
            estimate,
            rest,
            start,
            best,
            order.push(x.vertex()),
            queue.remove(x),
            weight,
            limit,
            order.len() as int,
        ),
        is_guided::<V, T>(e, estimate, rest, limit) ==> forall|s: Seq<V>|
            is_walk(e, s) && s[0] == start && !order.contains(s.last())
                ==> best[x.vertex()].0 + rest(x.vertex()) <= #[trigger] walk_cost(e, s) + rest(
                s.last(),
            ),
{
    reveal(is_searching);
    let u = x.vertex();
    let next = order.push(u);
    let n = order.len() as int;
    assert forall|v: V|
        #![trigger best.contains_key(v)]
        best.contains_key(v) && !next.contains(v) implies queue.remove(x).contains(
        T::entry(v, best[v].0, estimate(v)),
    ) by {
        T::lemma_entry(v, best[v].0, estimate(v));
        if order.contains(v) {
            let i = choose|i: int| 0 <= i < order.len() && order[i] == v;
            assert(next[i] == v);
        }
        assert(next[n] == u);
    }
    assert forall|y: T| #[trigger] queue.remove(x).contains(y) implies queue.contains(y) by {}
    assert(is_queued(estimate, best, next, queue.remove(x), limit));
    assert(is_search_tree(e, start, best, next, weight)) by {
        assert forall|i: int| 0 <= i < next.len() implies {
            &&& best.contains_key(#[trigger] next[i])
            &&& best[next[i]].0 <= i * weight
            &&& next[i] == start || finished_before(next, best[next[i]].1, i)
        } by {
            if i < n {
                assert(next[i] == order[i]);
                if order[i] != start {
                    let j = choose|j: int| 0 <= j < i && #[trigger] order[j] == best[order[i]].1;
                    assert(next[j] == order[j]);
                }
            } else if u != start {
                assert(has_parent(e, best, order, u));
                let j = choose|j: int| 0 <= j < order.len() && order[j] == best[u].1;
                assert(next[j] == order[j]);
            }
        }
        assert forall|v: V| #[trigger] best.contains_key(v) implies {
            &&& best[v].0 <= next.len() * weight
            &&& v == start || has_parent(e, best, next, v)
        } by {
            assert(order.len() * weight <= next.len() * weight) by (nonlinear_arith)
                requires
                    next.len() == order.len() + 1,
            ;
            if v != start {
                let j = choose|j: int| 0 <= j < order.len() && order[j] == best[v].1;
                assert(next[j] == order[j]);
            }
        }
    }
    assert(is_expanded(e, best, next, n)) by {
        assert forall|i: int, v: V|
            0 <= i < n && (#[trigger] e(next[i], v)) is Some implies best.contains_key(v) by {
            assert(next[i] == order[i]);
            assert(e(order[i], v) is Some);
        }
    }
    if is_guided::<V, T>(e, estimate, rest, limit) {
        assert forall|v: V|
            #![trigger best.contains_key(v)]
            best.contains_key(v) && !order.contains(v) implies best[u].0 + rest(u) <= best[v].0
            + rest(v) by {
            let y = T::entry(v, best[v].0, estimate(v));
            T::lemma_entry(v, best[v].0, estimate(v));
            assert(queue.contains(y));
            assert(x.rank() == x.cost() + rest(u));
        }
        lemma_lowest_is_cheapest(e, rest, start, best, order, weight, u);
        assert forall|s: Seq<V>|
            is_walk(e, s) && s[0] == start && !order.contains(s.last()) implies best[u].0 + rest(u)
            <= #[trigger] walk_cost(e, s) + rest(s.last()) by {
            lemma_lowest_rank(e, rest, start, best, order, weight, u, s);
        }
        assert forall|i: int, v: V| 0 <= i < n && (#[trigger] e(next[i], v)) is Some implies {
            &&& best.contains_key(v)
            &&& best[v].0 <= best[next[i]].0 + e(next[i], v)->0
        } by {
            assert(next[i] == order[i]);
            assert(e(order[i], v) is Some);
        }
        assert forall|i: int| 0 <= i < next.len() implies is_cheapest(
            e,
            start,
            #[trigger] next[i],
            best[next[i]].0 as nat,
        ) by {
            if i < n {
                assert(next[i] == order[i]);
            }
        }
    }
}

/// A vertex next to the one finished last can be reached over it, if that is cheaper.
pub proof fn lemma_vertex_reached<V: MapKey, T: QueueEntry<V>>(
    e: Edges<V>,
    estimate: spec_fn(V) -> Cost,
    rest: spec_fn(V) -> nat,
    start: V,
    best: Reached<V>,
    order: Seq<V>,
    queue: Multiset<T>,
    weight: nat,
    limit: nat,
    v: V,
    cost: Cost,
)
    requires
        order.len() > 0,
        is_searching(e, estimate, rest, start, best, order, queue, weight, limit, order.len() - 1),
        e(order.last(), v) is Some,
        e(order.last(), v)->0 <= weight,
        cost == best[order.last()].0 + e(order.last(), v)->0,
        cost <= limit,
        !order.contains(v),
        best.contains_key(v) ==> cost < best[v].0,
    ensures
        is_searching(
            e,
            estimate,
            rest,
            start,
            best.insert(v, (cost, order.last())),
            order,
            queue.insert(T::entry(v, cost, estimate(v))),
            weight,
            limit,
            order.len() - 1,
        ),
{
    reveal(is_searching);
    let u = order.last();
    let next = best.insert(v, (cost, u));
    let more = queue.insert(T::entry(v, cost, estimate(v)));
    let n = order.len() - 1;
    T::lemma_entry(v, cost, estimate(v));
    assert(order[n] == u);
    assert(best[u].0 <= n * weight);
    assert(cost <= order.len() * weight) by (nonlinear_arith)
        requires
            cost <= n * weight + weight,
            order.len() == n + 1,
    ;
    if v == start {
        assert(best[start].0 == 0);
    }
    assert forall|i: int| 0 <= i < order.len() implies next[#[trigger] order[i]] == best[order[i]]
        && next.contains_key(order[i]) by {}
    assert(is_search_tree(e, start, next, order, weight)) by {
        assert forall|w: V| #[trigger] next.contains_key(w) implies {
            &&& next[w].0 <= order.len() * weight
            &&& w == start || has_parent(e, next, order, w)
        } by {
            if w != v && w != start {
                assert(best.contains_key(w));
                let j = choose|j: int| 0 <= j < order.len() && order[j] == best[w].1;
                assert(next[order[j]] == best[order[j]]);
            }
        }
    }
    assert(is_queued(estimate, next, order, more, limit)) by {
        assert forall|w: V|
            #![trigger next.contains_key(w)]
            next.contains_key(w) && !order.contains(w) implies more.contains(
            T::entry(w, next[w].0, estimate(w)),
        ) by {
            if w != v {
                assert(best.contains_key(w));
            }
        }
        assert forall|x: T| #[trigger] more.contains(x) implies {
            &&& next.contains_key(x.vertex())
            &&& next[x.vertex()].0 <= x.cost() <= limit
            &&& x == T::entry(x.vertex(), x.cost(), estimate(x.vertex()))
        } by {
            if x != T::entry(v, cost, estimate(v)) {
                assert(queue.contains(x));
            }
        }
    }
    if is_guided::<V, T>(e, estimate, rest, limit) {
        assert forall|i: int, w: V| 0 <= i < n && (#[trigger] e(order[i], w)) is Some implies {
            &&& next.contains_key(w)
            &&& next[w].0 <= next[order[i]].0 + e(order[i], w)->0
        } by {
            assert(best.contains_key(w));
        }
        assert forall|i: int| 0 <= i < order.len() implies is_cheapest(
            e,
            start,
            #[trigger] order[i],
            next[order[i]].0 as nat,
        ) by {
            assert(next[order[i]] == best[order[i]]);
        }
    }
}

/// The vertex finished last is expanded once no way over it would lower a cost.
pub proof fn lemma_vertex_expanded<V: MapKey, T: QueueEntry<V>>(
    e: Edges<V>,
    estimate: spec_fn(V) -> Cost,
    rest: spec_fn(V) -> nat,
    start: V,
    best: Reached<V>,
    order: Seq<V>,
    queue: Multiset<T>,
    weight: nat,
    limit: nat,
)
    requires
        order.len() > 0,
        is_searching(e, estimate, rest, start, best, order, queue, weight, limit, order.len() - 1),
        forall|v: V|
            (#[trigger] e(order.last(), v)) is Some && !order.contains(v) ==> {
                &&& best.contains_key(v)
                &&& best[v].0 <= best[order.last()].0 + e(order.last(), v)->0
            },
    ensures
        is_searching(
            e,
            estimate,
            rest,
            start,
            best,
            order,
            queue,
            weight,
            limit,
            order.len() as int,
        ),
{
    reveal(is_searching);
    let n = order.len() - 1;
    let u = order[n];
    assert forall|i: int, v: V|
        0 <= i < order.len() && (#[trigger] e(order[i], v)) is Some implies best.contains_key(v) by {
        if i == n {
            if order.contains(v) {
                let j = choose|j: int| 0 <= j < order.len() && order[j] == v;
                assert(best.contains_key(order[j]));
            } else {
                assert(e(order.last(), v) is Some);
            }
        }
    }
    if is_guided::<V, T>(e, estimate, rest, limit) {
        assert forall|i: int, v: V|
            0 <= i < order.len() && (#[trigger] e(order[i], v)) is Some implies {
            &&& best.contains_key(v)
            &&& best[v].0 <= best[order[i]].0 + e(order[i], v)->0
        } by {
            if i == n {
                if order.contains(v) {
                    let j = choose|j: int| 0 <= j < order.len() && order[j] == v;
                    assert(best.contains_key(order[j]));
                    assert(best.contains_key(u));
                    let s = lemma_tree_walk(e, start, best, order, weight, u);
                    lemma_walk_extends(e, s, v);
                    assert(is_cheapest(e, start, order[j], best[order[j]].0 as nat));
                    assert(connects(e, s.push(v), start, order[j]));
                } else {
                    assert(e(order.last(), v) is Some);
                }
            }
        }
    }
}

/// A search in progress.
#[verifier::reject_recursive_types(K)]
pub struct Search<K, T> {
    best: KeyMap<K, (Cost, K)>,
    finished: KeyMap<K, ()>,
    queue: Heap<T>,
    start: K,
    edges: Ghost<Edges<K>>,
    estimate: Ghost<spec_fn(K) -> Cost>,
    rest: Ghost<spec_fn(K) -> nat>,
    order: Ghost<Seq<K>>,
    weight: Ghost<nat>,
    limit: Ghost<nat>,
}

impl<K: MapKey + Copy, T: QueueEntry<K>> Search<K, T> {
    /// The graph that is searched.
    pub closed spec fn edges(&self) -> Edges<K> {
        self.edges@
    }

    /// The estimates by which the queue ranks its entries.
    pub closed spec fn estimate(&self) -> spec_fn(K) -> Cost {
        self.estimate@
    }

    /// The part of a rank that comes from the estimate.
    pub closed spec fn rest(&self) -> spec_fn(K) -> nat {
        self.rest@
    }

    /// The vertex at which the search began.
    pub closed spec fn start(&self) -> K {
        self.start
    }

    /// What is known of the vertices reached.
    pub closed spec fn best(&self) -> Reached<K> {
        self.best@
    }

    /// The finished vertices, in the order in which they were finished.
    pub closed spec fn order(&self) -> Seq<K> {
        self.order@
    }

    /// The highest cost of an edge.
    pub closed spec fn weight(&self) -> nat {
        self.weight@
    }

    /// The highest cost that a vertex may be reached at.
    pub closed spec fn limit(&self) -> nat {
        self.limit@
    }

    /// Entries are ranked by their cost plus a consistent estimate of the rest.
    pub open spec fn guided(&self) -> bool {
        is_guided::<K, T>(self.edges(), self.estimate(), self.rest(), self.limit())
    }

    /// The two searches differ in their progress only.
    pub open spec fn same_search(&self, other: &Self) -> bool {
        &&& self.edges() == other.edges()
        &&& self.estimate() == other.estimate()
        &&& self.rest() == other.rest()
        &&& self.start() == other.start()
        &&& self.weight() == other.weight()
        &&& self.limit() == other.limit()
    }

    /// The search is sound, and its first `n` finished vertices have been expanded.
    pub closed spec fn wf(&self, n: int) -> bool {
        &&& self.best.wf()
        &&& self.finished.wf()
        &&& self.queue.wf::<K>()
        &&& forall|v: K| #[trigger] self.finished@.contains_key(v) <==> self.order@.contains(v)
        &&& is_searching(
            self.edges@,
            self.estimate@,
            self.rest@,
            self.start,
            self.best@,
            self.order@,
            self.queue@,
            self.weight@,
            self.limit@,
            n,
        )
    }

    /// What a sound search knows.
    pub proof fn lemma_wf(&self, n: int)
        requires
            self.wf(n),
        ensures
            is_search_tree(self.edges(), self.start(), self.best(), self.order(), self.weight()),
            is_expanded(self.edges(), self.best(), self.order(), n),
            self.guided() ==> {
                &&& is_settled(self.edges(), self.start(), self.best(), self.order())
                &&& is_relaxed(self.edges(), self.best(), self.order(), n)
            },
    {
        reveal(is_searching);
    }

    /// Begins a search.
    pub fn new(
        start: K,
        estimate: Cost,
        Ghost(edges): Ghost<Edges<K>>,
        Ghost(estimates): Ghost<spec_fn(K) -> Cost>,
        Ghost(rest): Ghost<spec_fn(K) -> nat>,
        Ghost(weight): Ghost<nat>,
        Ghost(limit): Ghost<nat>,
    ) -> (search: Self)
        requires
            estimate == estimates(start),
        ensures
            search.wf(0),
            search.order() == Seq::<K>::empty(),
            search.best() == Map::<K, (Cost, K)>::empty().insert(start, (0 as Cost, start)),
            search.start() == start,
            search.edges() == edges,
            search.estimate() == estimates,
            search.rest() == rest,
            search.weight() == weight,
            search.limit() == limit,
    {
        let mut best: KeyMap<K, (Cost, K)> = KeyMap::new();
        best.insert(start, (0, start));
        let mut queue: Heap<T> = Heap::new::<K>();
        queue.push::<K>(T::new_entry(start, 0, estimate));
        proof {
            lemma_search_begins::<K, T>(edges, estimates, rest, start, weight, limit);
        }
        Search {
            best,
            finished: KeyMap::new(),
            queue,
            start,
            edges: Ghost(edges),
            estimate: Ghost(estimates),
            rest: Ghost(rest),
            order: Ghost(Seq::empty()),
            weight: Ghost(weight),
            limit: Ghost(limit),
        }
    }

    /// Finishes the next vertex, and returns it with the cost at which it was reached.
    pub fn next(&mut self) -> (next: Option<(K, Cost)>)
        requires
            old(self).wf(old(self).order().len() as int),
        ensures
            final(self).same_search(old(self)),
            final(self).best() == old(self).best(),
            final(self).wf(old(self).order().len() as int),
            match next {
                Some((v, cost)) => {
                    &&& !old(self).order().contains(v)
                    &&& final(self).order() == old(self).order().push(v)
                    &&& final(self).best().contains_key(v)
                    &&& cost == final(self).best()[v].0
                    &&& is_next(
                        old(self).best(),
                        old(self).order(),
                        ranks::<K, T>(old(self).estimate()),
                        v,
                    )
                    &&& old(self).guided() ==> forall|s: Seq<K>|
                        is_walk(old(self).edges(), s) && s[0] == old(self).start() && !old(
                            self,
                        ).order().contains(s.last()) ==> cost + old(self).rest()(v) <= #[trigger] walk_cost(
                            old(self).edges(),
                            s,
                        ) + old(self).rest()(s.last())
                },
                None => {
                    &&& final(self).order() == old(self).order()
                    &&& forall|v: K| #[trigger]
                        final(self).best().contains_key(v) ==> final(self).order().contains(v)
                },
            },
    {
        let ghost n = self.order@.len() as int;
        loop
            invariant
                n == self.order@.len(),
                self.order == old(self).order,
                self.best == old(self).best,
                self.same_search(old(self)),
                self.wf(n),
            decreases self.queue@.len(),
        {
            let ghost queue = self.queue@;
            let x: T = match self.queue.pop::<K>() {
                Some(x) => x,
                None => {
                    reveal(is_searching);
                    assert forall|v: K| #[trigger] self.best@.contains_key(v) implies self.order@.contains(
                        v,
                    ) by {
                        if !self.order@.contains(v) {
                            assert(queue.contains(T::entry(v, self.best@[v].0, self.estimate@(v))));
                        }
                    }
                    return None;
                },
            };
            let v: K = x.into_vertex();
            if self.finished.contains_key(&v) {
                proof {
                    lemma_entry_dropped(
                        self.edges@,
                        self.estimate@,
                        self.rest@,
                        self.start,
                        self.best@,
                        self.order@,
                        queue,
                        self.weight@,
                        self.limit@,
                        x,
                    );
                }
            } else {
                proof {
                    lemma_next(
                        self.edges@,
                        self.estimate@,
                        self.rest@,
                        self.start,
                        self.best@,
                        self.order@,
                        queue,
                        self.weight@,
                        self.limit@,
                        x,
                    );
                    lemma_vertex_finished(
                        self.edges@,
                        self.estimate@,
                        self.rest@,
                        self.start,
                        self.best@,
                        self.order@,
                        queue,
                        self.weight@,
                        self.limit@,
                        x,
                    );
                }
                self.finished.insert(v, ());
                let ghost before = self.order@;
                self.order = Ghost(before.push(v));
                proof {
                    assert forall|w: K| #[trigger] self.finished@.contains_key(w)
                        <==> self.order@.contains(w) by {
                        if before.contains(w) {
                            let i = choose|i: int| 0 <= i < before.len() && before[i] == w;
                            assert(self.order@[i] == w);
                        }
                        assert(self.order@[n] == v);
                    }
                }
                let cost: Cost = match self.best.get(&v) {
                    Some(reached) => reached.0,
                    None => {
                        reveal(is_searching);
                        assert(queue.contains(x));
                        0
                    },
                };
                return Some((v, cost));
            }
        }
    }

    /// Reaches `v` over `u`, the vertex finished last.
    pub fn reach(&mut self, u: K, v: K, cost: Cost, estimate: Cost)
        requires
            old(self).order().len() > 0,
            old(self).wf(old(self).order().len() - 1),
            u == old(self).order().last(),
            old(self).edges()(u, v) is Some,
            old(self).edges()(u, v)->0 <= old(self).weight(),
            cost == old(self).best()[u].0 + old(self).edges()(u, v)->0,
            cost <= old(self).limit(),
            estimate == old(self).estimate()(v),
        ensures
            final(self).same_search(old(self)),
            final(self).order() == old(self).order(),
            final(self).wf(old(self).order().len() - 1),
            final(self).best()[u] == old(self).best()[u],
            final(self).best() == if old(self).order().contains(v) || (old(
                self,
            ).best().contains_key(v) && old(self).best()[v].0 <= cost) {
                old(self).best()
            } else {
                old(self).best().insert(v, (cost, u))
            },
            !old(self).order().contains(v) ==> {
                &&& final(self).best().contains_key(v)
                &&& final(self).best()[v].0 <= cost
            },
            forall|w: K| #[trigger]
                old(self).best().contains_key(w) ==> {
                    &&& final(self).best().contains_key(w)
                    &&& final(self).best()[w].0 <= old(self).best()[w].0
                },
    {
        proof {
            let n = self.order@.len() - 1;
            self.lemma_wf(n);
            assert(self.order@[n] == u);
        }
        if self.finished.contains_key(&v) {
            return ;
        }
        let cheaper: bool = match self.best.get(&v) {
            Some(reached) => cost < reached.0,
            None => true,
        };
        if cheaper {
            proof {
                lemma_vertex_reached(
                    self.edges@,
                    self.estimate@,
                    self.rest@,
                    self.start,
                    self.best@,
                    self.order@,
                    self.queue@,
                    self.weight@,
                    self.limit@,
                    v,
                    cost,
                );
            }
            self.best.insert(v, (cost, u));
            self.queue.push::<K>(T::new_entry(v, cost, estimate));
        }
    }

    /// The vertex finished last is expanded once every vertex next to it has been reached.
    pub proof fn lemma_expanded(&self)
        requires
            self.order().len() > 0,
            self.wf(self.order().len() - 1),
            forall|v: K|
                (#[trigger] self.edges()(self.order().last(), v)) is Some && !self.order().contains(
                    v,
                ) ==> {
                    &&& self.best().contains_key(v)
                    &&& self.best()[v].0 <= self.best()[self.order().last()].0 + self.edges()(
                        self.order().last(),
                        v,
                    )->0
                },
        ensures
            self.wf(self.order().len() as int),
    {
        assert forall|v: K|
            (#[trigger] self.edges@(self.order@.last(), v)) is Some && !self.order@.contains(
                v,
            ) implies {
            &&& self.best@.contains_key(v)
            &&& self.best@[v].0 <= self.best@[self.order@.last()].0 + self.edges@(
                self.order@.last(),
                v,
            )->0
        } by {
            assert(self.edges()(self.order().last(), v) is Some);
        }
        lemma_vertex_expanded(
            self.edges@,
            self.estimate@,
            self.rest@,
            self.start,
            self.best@,
            self.order@,
            self.queue@,
            self.weight@,
            self.limit@,
        );
    }

    /// The cost at which a vertex was reached.
    pub fn known_cost(&self, v: K, Ghost(n): Ghost<int>) -> (cost: Cost)
        requires
            self.wf(n),
            self.best().contains_key(v),
        ensures
            cost == self.best()[v].0,
    {
        match self.best.get(&v) {
            Some(reached) => reached.0,
            None => 0,
        }
    }

    /// The walk by which a finished vertex was reached.
    pub fn trace(&self, goal: K, Ghost(n): Ghost<int>) -> (path: Vec<K>)
        requires
            self.wf(n),
            self.order().contains(goal),
        ensures
            connects(self.edges(), path@, self.start(), goal),
            walk_cost(self.edges(), path@) == self.best()[goal].0,
            path@.len() <= self.order().len(),
            is_trace(self.best(), self.order(), self.start(), goal, path@),
    {
        let mut back: Vec<K> = Vec::new();
        back.push(goal);
        let mut current: K = goal;
        let ghost mut i = choose|i: int| 0 <= i < self.order@.len() && self.order@[i] == goal;
        let ghost e = self.edges@;
        proof {
            self.lemma_wf(n);
            assert(back@.reverse() =~= seq![goal]);
            assert(connects(e, seq![goal], goal, goal));
        }
        while current.to_code() != self.start.to_code()
            invariant
                self.wf(n),
                e == self.edges@,
                0 <= i < self.order@.len(),
                self.order@[i] == current,
                connects(e, back@.reverse(), current, goal),
                walk_cost(e, back@.reverse()) + self.best@[current].0 == self.best@[goal].0,
                back@.len() + i <= self.order@.len(),
                back@.len() > 0,
                back@[0] == goal,
                back@.last() == current,
                forall|k: int|
                    0 <= k < back@.len() ==> self.order@.contains(#[trigger] back@[k]),
                forall|k: int|
                    0 < k < back@.len() ==> #[trigger] follows(
                        self.best@,
                        self.start,
                        back@.reverse(),
                        k,
                    ),
            decreases i,
        {
            proof {
                K::lemma_code(current, self.start);
                self.lemma_wf(n);
                assert(self.best@.contains_key(self.order@[i]));
                assert(has_parent(e, self.best@, self.order@, current));
            }
            match self.best.get(&current) {
                Some(reached) => {
                    let parent: K = reached.1;
                    let ghost s = back@.reverse();
                    back.push(parent);
                    proof {
                        assert forall|k: int| 0 < k < back@.len() implies #[trigger] follows(
                            self.best@,
                            self.start,
                            back@.reverse(),
                            k,
                        ) by {
                            if k > 1 {
                                assert(follows(self.best@, self.start, s, k - 1));
                            }
                        }
                        lemma_walk_prepends(e, parent, s);
                        assert(back@.reverse() =~= seq![parent] + s);
                        i = choose|j: int| 0 <= j < i && #[trigger] self.order@[j] == parent;
                    }
                    current = parent;
                },
                None => {
                    assert(false);
                    return back;
                },
            }
        }
        proof {
            K::lemma_code(current, self.start);
            self.lemma_wf(n);
        }
        let mut path: Vec<K> = Vec::new();
        let mut left: usize = back.len();
        while left > 0
            invariant
                left <= back@.len(),
                path@ =~= back@.reverse().take(back@.len() - left),
            decreases left,
        {
            left = left - 1;
            path.push(back[left]);
        }
        assert(path@ =~= back@.reverse());
        proof {
            let m = back@.len();
            assert forall|k: int| 0 <= k < path@.len() implies self.order@.contains(
                #[trigger] path@[k],
            ) by {
                assert(path@[k] == back@[m - 1 - k]);
            }
        }
        path
    }
}

/// What a search for some goals has found.
#[verifier::reject_recursive_types(K)]
pub struct Explored<K, T> {
    /// The search, as it was left.
    pub search: Search<K, T>,
    /// The goals that were found, in the order in which they were found.
    pub found: Vec<K>,
    /// The number of vertices that were expanded.
    pub expanded: Ghost<int>,
}

impl<K: MapKey + Copy, T: QueueEntry<K>> Explored<K, T> {
    /// The vertices were finished in the order of the ranks, and the search knows what follows
    /// from that.
    pub open spec fn is_on_course(&self) -> bool {
        let e = self.search.edges();
        let start = self.search.start();
        let order = self.search.order();
        &&& is_course(e, ranks::<K, T>(self.search.estimate()), start, order)
        &&& order.len() - 1 <= self.expanded@ <= order.len()
        &&& self.expanded@ >= 0
        &&& self.search.best() == reached(e, start, order.take(self.expanded@))
    }

    /// Of the goals, all that can be reached were found; or, if only one goal was asked
    /// for, one of those of lowest rank.
    pub open spec fn answers(&self, goals: Set<K>, only_closest: bool) -> bool {
        let e = self.search.edges();
        let start = self.search.start();
        let best = self.search.best();
        let rest = self.search.rest();
        &&& self.search.wf(self.expanded@)
        &&& self.is_on_course()
        &&& self.found@.no_duplicates()
        &&& forall|i: int|
            0 <= i < self.found@.len() ==> {
                &&& goals.contains(#[trigger] self.found@[i])
                &&& self.search.order().contains(self.found@[i])
            }
        &&& if only_closest {
            &&& self.found@.len() <= 1
            &&& self.found@.len() == 1 ==> is_first_in(
                e,
                ranks::<K, T>(self.search.estimate()),
                start,
                goals,
                self.found@[0],
                self.search.order(),
            )
            &&& self.found@.len() == 0 ==> forall|g: K| #[trigger]
                goals.contains(g) ==> !reaches(e, start, g)
            &&& self.found@.len() == 1 && self.search.guided()
                ==> forall|g: K, s: Seq<K>|
                goals.contains(g) && #[trigger] connects(e, s, start, g)
                    ==> best[self.found@[0]].0 + rest(self.found@[0]) <= walk_cost(e, s) + rest(g)
        } else {
            forall|g: K| #[trigger]
                goals.contains(g) ==> (self.found@.contains(g) <==> reaches(e, start, g))
        }
    }

    /// A goal that was found can be reached.
    pub proof fn lemma_found(&self, goals: Set<K>, only_closest: bool, g: K)
        requires
            self.answers(goals, only_closest),
            self.found@.contains(g),
        ensures
            goals.contains(g),
            self.search.order().contains(g),
            reaches(self.search.edges(), self.search.start(), g),
            self.search.guided() ==> is_cheapest(
                self.search.edges(),
                self.search.start(),
                g,
                self.search.best()[g].0 as nat,
            ),
    {
        self.search.lemma_wf(self.expanded@);
        let order = self.search.order();
        let i = choose|i: int| 0 <= i < order.len() && order[i] == g;
        assert(self.search.best().contains_key(order[i]));
        let s = lemma_tree_walk(
            self.search.edges(),
            self.search.start(),
            self.search.best(),
            order,
            self.search.weight(),
            g,
        );
        assert(connects(self.search.edges(), s, self.search.start(), g));
    }

    /// The path to a goal that was found.
    pub fn path_to(
        &self,
        goal: K,
        Ghost(goals): Ghost<Set<K>>,
        Ghost(only_closest): Ghost<bool>,
    ) -> (path: Path<K>)
        requires
            self.answers(goals, only_closest),
            self.found@.contains(goal),
        ensures
            connects(self.search.edges(), path.points(), self.search.start(), goal),
            walk_cost(self.search.edges(), path.points()) == path.total(),
            path.points().len() <= self.search.order().len(),
            path.total() <= self.search.order().len() * self.search.weight(),
            path.total() == self.search.best()[goal].0,
            is_found(
                self.search.edges(),
                ranks::<K, T>(self.search.estimate()),
                self.search.start(),
                goal,
                path.points(),
                path.total() as nat,
            ),
    {
        proof {
            self.lemma_found(goals, only_closest, goal);
            self.search.lemma_wf(self.expanded@);
            let order = self.search.order();
            let i = choose|i: int| 0 <= i < order.len() && order[i] == goal;
            assert(self.search.best().contains_key(order[i]));
        }
        let points: Vec<K> = self.search.trace(goal, Ghost(self.expanded@));
        let cost: Cost = self.search.known_cost(goal, Ghost(self.expanded@));
        proof {
            let order = self.search.order();
            assert forall|i: int|
                0 <= i < order.len() implies self.search.best().contains_key(
                #[trigger] order[i],
            ) by {}
            lemma_trace_found(
                self.search.edges(),
                ranks::<K, T>(self.search.estimate()),
                self.search.start(),
                goal,
                points@,
                order,
                self.expanded@,
            );
        }
        Path::new(points, cost)
    }
}

/// A goal that has been found joins the list.
pub proof fn lemma_goal_found<K>(
    found: Seq<K>,
    goal: K,
    before: Seq<K>,
    order: Seq<K>,
    goals: Set<K>,
)
    requires
        found.no_duplicates(),
        goals.contains(goal),
        order == before.push(goal),
        !before.contains(goal),
        forall|i: int|
            0 <= i < found.len() ==> {
                &&& goals.contains(#[trigger] found[i])
                &&& before.contains(found[i])
            },
        forall|g: K| before.contains(g) && #[trigger] goals.contains(g) ==> found.contains(g),
    ensures
        found.push(goal).no_duplicates(),
        forall|i: int|
            0 <= i < found.len() + 1 ==> {
                &&& goals.contains(#[trigger] found.push(goal)[i])
                &&& order.contains(found.push(goal)[i])
            },
        forall|g: K|
            order.contains(g) && #[trigger] goals.contains(g) ==> found.push(goal).contains(g),
{
    let more = found.push(goal);
    assert(order[before.len() as int] == goal);
    assert forall|i: int| 0 <= i < more.len() implies {
        &&& goals.contains(#[trigger] more[i])
        &&& order.contains(more[i])
    } by {
        if i < found.len() {
            assert(more[i] == found[i]);
            let j = choose|j: int| 0 <= j < before.len() && before[j] == found[i];
            assert(order[j] == found[i]);
        }
    }
    assert forall|g: K| order.contains(g) && #[trigger] goals.contains(g) implies more.contains(
        g,
    ) by {
        if g == goal {
            assert(more[found.len() as int] == g);
        } else {
            let j = choose|j: int| 0 <= j < order.len() && order[j] == g;
            assert(before[j] == g);
            let i = choose|i: int| 0 <= i < found.len() && found[i] == g;
            assert(more[i] == g);
        }
    }
}

/// A list of as many different goals as there are holds them all.
pub proof fn lemma_all_found<K>(found: Seq<K>, goals: Set<K>)
    requires
        found.no_duplicates(),
        goals.finite(),
        found.len() == goals.len(),
        forall|i: int| 0 <= i < found.len() ==> goals.contains(#[trigger] found[i]),
    ensures
        forall|g: K| #[trigger] goals.contains(g) ==> found.contains(g),
{
    found.unique_seq_to_set();
    assert(found.to_set().subset_of(goals));
    vstd::set_lib::lemma_subset_equality(found.to_set(), goals);
    assert forall|g: K| #[trigger] goals.contains(g) implies found.contains(g) by {
        assert(found.to_set().contains(g));
    }
}

/// The paths are cheapest paths from `start` to the goals under which they stand, over no
/// more than `count` vertices; of the goals that can be reached, all are there, or, with
/// `only_closest`, one that no other is cheaper to reach than.
pub open spec fn are_cheapest_paths<K>(
    e: Edges<K>,
    start: K,
    goals: Seq<K>,
    only_closest: bool,
    count: int,
    weight: nat,
    paths: Map<K, Path<K>>,
) -> bool {
    &&& forall|g: K| #[trigger]
        paths.contains_key(g) ==> {
            &&& goals.contains(g)
            &&& connects(e, paths[g].points(), start, g)
            &&& walk_cost(e, paths[g].points()) == paths[g].total()
            &&& paths[g].points().len() <= count
            &&& paths[g].total() <= count * weight
            &&& is_cheapest(e, start, g, paths[g].total() as nat)
        }
    &&& if only_closest {
        &&& forall|g: K, h: K|
            #![trigger paths.contains_key(g), paths.contains_key(h)]
            paths.contains_key(g) && paths.contains_key(h) ==> g == h
        &&& (exists|g: K| #[trigger] goals.contains(g) && reaches(e, start, g)) ==> (exists|g: K|
            #[trigger]
            paths.contains_key(g))
        &&& forall|g: K, h: K|
            #![trigger paths.contains_key(g), goals.contains(h)]
            paths.contains_key(g) && goals.contains(h) ==> is_cheapest(
                e,
                start,
                h,
                paths[g].total() as nat,
            )
    } else {
        forall|g: K| #[trigger]
            goals.contains(g) && reaches(e, start, g) ==> paths.contains_key(g)
    }
}

/// The paths are those by which the search comes to the goals under which they stand; with
/// `only_closest`, the goal is the one that it comes to first.
pub open spec fn are_found<K: MapKey>(
    e: Edges<K>,
    rank: Ranks<K>,
    start: K,
    goals: Seq<K>,
    only_closest: bool,
    paths: Map<K, Path<K>>,
) -> bool {
    forall|g: K| #[trigger]
        paths.contains_key(g) ==> {
            &&& is_found(e, rank, start, g, paths[g].points(), paths[g].total() as nat)
            &&& only_closest ==> is_first(e, rank, start, goals.to_set(), g)
        }
}

/// The set of the given keys.
pub fn to_set<K: MapKey + Copy>(keys: &[K]) -> (set: KeyMap<K, ()>)
    ensures
        set.wf(),
        set@.dom() == keys@.to_set(),
{
    let mut set: KeyMap<K, ()> = KeyMap::new();
    for i in 0..keys.len()
        invariant
            set.wf(),
            forall|k: K| #[trigger]
                set@.contains_key(k) <==> exists|j: int| 0 <= j < i && #[trigger] keys@[j] == k,
    {
        let ghost before = set@;
        set.insert(keys[i], ());
        proof {
            assert forall|k: K| #[trigger] set@.contains_key(k) <==> exists|j: int|
                0 <= j < i + 1 && #[trigger] keys@[j] == k by {
                if before.contains_key(k) {
                    let j = choose|j: int| 0 <= j < i && #[trigger] keys@[j] == k;
                    assert(0 <= j < i + 1 && keys@[j] == k);
                }
                if k == keys@[i as int] {
                    assert(0 <= i < i + 1 && keys@[i as int] == k);
                }
            }
        }
    }
    assert(set@.dom() =~= keys@.to_set());
    set
}

impl<K: MapKey + Copy, T: QueueEntry<K>> Explored<K, T> {
    /// The paths to the goals that were found.
    pub fn to_paths(
        &self,
        Ghost(goals): Ghost<Seq<K>>,
        Ghost(only_closest): Ghost<bool>,
        Ghost(count): Ghost<int>,
    ) -> (paths: KeyMap<K, Path<K>>)
        requires
            self.answers(goals.to_set(), only_closest),
            self.search.guided(),
            forall|k: K| (#[trigger] self.search.rest()(k)) == 0,
            self.search.order().len() <= count,
        ensures
            paths.wf(),
            are_cheapest_paths(
                self.search.edges(),
                self.search.start(),
                goals,
                only_closest,
                count,
                self.search.weight(),
                paths@,
            ),
            are_found(
                self.search.edges(),
                ranks::<K, T>(self.search.estimate()),
                self.search.start(),
                goals,
                only_closest,
                paths@,
            ),
    {
        let ghost e = self.search.edges();
        let ghost rank = ranks::<K, T>(self.search.estimate());
        let ghost start = self.search.start();
        let ghost weight = self.search.weight();
        let ghost wanted = goals.to_set();
        let mut paths: KeyMap<K, Path<K>> = KeyMap::new();
        for i in 0..self.found.len()
            invariant
                self.answers(wanted, only_closest),
                self.search.edges() == e,
                self.search.start() == start,
                self.search.weight() == weight,
                rank == ranks::<K, T>(self.search.estimate()),
                self.search.order().len() <= count,
                self.search.guided(),
                paths.wf(),
                forall|g: K| #[trigger]
                    paths@.contains_key(g) <==> exists|j: int|
                        0 <= j < i && #[trigger] self.found@[j] == g,
                forall|g: K| #[trigger]
                    paths@.contains_key(g) ==> {
                        &&& connects(e, paths@[g].points(), start, g)
                        &&& walk_cost(e, paths@[g].points()) == paths@[g].total()
                        &&& paths@[g].points().len() <= count
                        &&& paths@[g].total() <= count * weight
                        &&& paths@[g].total() == self.search.best()[g].0
                        &&& is_found(
                            e,
                            rank,
                            start,
                            g,
                            paths@[g].points(),
                            paths@[g].total() as nat,
                        )
                        &&& is_cheapest(e, start, g, paths@[g].total() as nat)
                    },
        {
            let goal: K = self.found[i];
            proof {
                assert(self.found@.contains(goal));
                self.lemma_found(wanted, only_closest, goal);
                assert(self.search.order().len() * weight <= count * weight) by (nonlinear_arith)
                    requires
                        self.search.order().len() <= count,
                ;
            }
            let path: Path<K> = self.path_to(goal, Ghost(wanted), Ghost(only_closest));
            let ghost before = paths@;
            paths.insert(goal, path);
            proof {
                assert forall|g: K| #[trigger] paths@.contains_key(g) <==> exists|j: int|
                    0 <= j < i + 1 && #[trigger] self.found@[j] == g by {
                    if before.contains_key(g) {
                        let j = choose|j: int| 0 <= j < i && #[trigger] self.found@[j] == g;
                        assert(0 <= j < i + 1 && self.found@[j] == g);
                    }
                    if g == goal {
                        assert(0 <= i < i + 1 && self.found@[i as int] == g);
                    }
                }
            }
        }
        proof {
            assert forall|g: K| #[trigger] paths@.contains_key(g) implies goals.contains(g) by {
                let j = choose|j: int| 0 <= j < self.found@.len() && #[trigger] self.found@[j] == g;
                assert(wanted.contains(self.found@[j]));
            }
            if only_closest {
                assert forall|g: K| #[trigger] paths@.contains_key(g) implies is_first(
                    e,
                    rank,
                    start,
                    wanted,
                    g,
                ) by {
                    let j = choose|j: int|
                        0 <= j < self.found@.len() && #[trigger] self.found@[j] == g;
                    assert(j == 0);
                    assert(is_first_in(e, rank, start, wanted, g, self.search.order()));
                }
            }
            assert forall|g: K| goals.contains(g) implies #[trigger] wanted.contains(g) by {}
            if only_closest {
                if exists|g: K| #[trigger] goals.contains(g) && reaches(e, start, g) {
                    let g = choose|g: K| #[trigger] goals.contains(g) && reaches(e, start, g);
                    assert(wanted.contains(g));
                    assert(self.found@.len() == 1);
                    assert(self.found@[0] == self.found@[0]);
                    assert(paths@.contains_key(self.found@[0]));
                }
                assert forall|g: K, h: K|
                    #![trigger paths@.contains_key(g), goals.contains(h)]
                    paths@.contains_key(g) && goals.contains(h) implies is_cheapest(
                    e,
                    start,
                    h,
                    paths@[g].total() as nat,
                ) by {
                    assert(wanted.contains(h));
                    assert(self.search.rest()(g) == 0 && self.search.rest()(h) == 0);
                }
            } else {
                assert forall|g: K| #[trigger]
                    goals.contains(g) && reaches(e, start, g) implies paths@.contains_key(g) by {
                    assert(wanted.contains(g));
                    let j = choose|j: int| 0 <= j < self.found@.len() && self.found@[j] == g;
                    assert(self.found@[j] == g);
                }
            }
        }
        paths
    }
}

} // verus!
