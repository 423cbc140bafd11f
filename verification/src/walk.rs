//! Walks in weighted directed graphs.

use vstd::prelude::*;

verus! {

/// A weighted directed graph: the cost of the edge from one vertex to another, if there
/// is one.
pub type Edges<V> = spec_fn(V, V) -> Option<nat>;

/// There is an edge from the `i`-th vertex to the one after it.
pub open spec fn linked<V>(e: Edges<V>, s: Seq<V>, i: int) -> bool {
    e(s[i], s[i + 1]) is Some
}

/// Each vertex of `s` but the last has an edge to the vertex after it.
pub open spec fn is_walk<V>(e: Edges<V>, s: Seq<V>) -> bool {
    &&& s.len() > 0
    &&& forall|i: int| 0 <= i < s.len() - 1 ==> #[trigger] linked(e, s, i)
}

/// The sum of the costs of the edges that a walk takes.
pub open spec fn walk_cost<V>(e: Edges<V>, s: Seq<V>) -> nat
    decreases s.len(),
{
    if s.len() <= 1 {
        0
    } else {
        walk_cost(e, s.drop_last()) + e(s[s.len() - 2], s[s.len() - 1])->0
    }
}

/// `s` is a walk from `a` to `b`.
pub open spec fn connects<V>(e: Edges<V>, s: Seq<V>, a: V, b: V) -> bool {
    &&& is_walk(e, s)
    &&& s[0] == a
    &&& s.last() == b
}

/// There is a walk from `a` to `b`.
pub open spec fn reaches<V>(e: Edges<V>, a: V, b: V) -> bool {
    exists|s: Seq<V>| #[trigger] connects(e, s, a, b)
}

/// Every edge of `e` is an edge of `f`, at the same cost.
pub open spec fn subgraph<V>(e: Edges<V>, f: Edges<V>) -> bool {
    forall|a: V, b: V| (#[trigger] e(a, b)) is Some ==> f(a, b) == e(a, b)
}

/// Every edge can be taken back.
pub open spec fn two_way<V>(e: Edges<V>) -> bool {
    forall|a: V, b: V| (#[trigger] e(a, b)) is Some ==> e(b, a) is Some
}

/// The walk `s` followed by the walk `t`, which starts where `s` ends.
pub open spec fn joined<V>(s: Seq<V>, t: Seq<V>) -> Seq<V> {
    s + t.skip(1)
}

pub proof fn lemma_reaches_itself<V>(e: Edges<V>, a: V)
    ensures
        reaches(e, a, a),
{
    assert(connects(e, seq![a], a, a));
}

pub proof fn lemma_walk_extends<V>(e: Edges<V>, s: Seq<V>, b: V)
    requires
        is_walk(e, s),
        e(s.last(), b) is Some,
    ensures
        connects(e, s.push(b), s[0], b),
        walk_cost(e, s.push(b)) == walk_cost(e, s) + e(s.last(), b)->0,
{
    let t = s.push(b);
    assert forall|i: int| 0 <= i < t.len() - 1 implies #[trigger] linked(e, t, i) by {
        if i < s.len() - 1 {
            assert(linked(e, s, i));
        }
    }
    assert(t.drop_last() =~= s);
}

pub proof fn lemma_single_step<V>(e: Edges<V>, a: V, b: V)
    requires
        e(a, b) is Some,
    ensures
        connects(e, seq![a, b], a, b),
        walk_cost(e, seq![a, b]) == e(a, b)->0,
        reaches(e, a, b),
{
    lemma_walk_extends(e, seq![a], b);
    assert(seq![a].push(b) =~= seq![a, b]);
    assert(walk_cost(e, seq![a]) == 0);
}

pub proof fn lemma_walk_prepends<V>(e: Edges<V>, a: V, s: Seq<V>)
    requires
        is_walk(e, s),
        e(a, s[0]) is Some,
    ensures
        connects(e, seq![a] + s, a, s.last()),
        walk_cost(e, seq![a] + s) == e(a, s[0])->0 + walk_cost(e, s),
{
    lemma_single_step(e, a, s[0]);
    lemma_walks_join(e, seq![a, s[0]], s);
    assert(joined(seq![a, s[0]], s) =~= seq![a] + s);
}

/// Two walks, one starting where the other ends, make up one walk whose cost is the sum.
pub proof fn lemma_walks_join<V>(e: Edges<V>, s: Seq<V>, t: Seq<V>)
    requires
        is_walk(e, s),
        is_walk(e, t),
        s.last() == t[0],
    ensures
        connects(e, joined(s, t), s[0], t.last()),
        walk_cost(e, joined(s, t)) == walk_cost(e, s) + walk_cost(e, t),
        joined(s, t).len() == s.len() + t.len() - 1,
    decreases t.len(),
{
    if t.len() == 1 {
        assert(joined(s, t) =~= s);
    } else {
        let r = t.drop_last();
        assert forall|i: int| 0 <= i < r.len() - 1 implies #[trigger] linked(e, r, i) by {
            assert(linked(e, t, i));
        }
        lemma_walks_join(e, s, r);
        assert(linked(e, t, t.len() - 2));
        lemma_walk_extends(e, joined(s, r), t.last());
        assert(joined(s, r).push(t.last()) =~= joined(s, t));
    }
}

pub proof fn lemma_reaches_transitive<V>(e: Edges<V>, a: V, b: V, c: V)
    requires
        reaches(e, a, b),
        reaches(e, b, c),
    ensures
        reaches(e, a, c),
{
    let s = choose|s: Seq<V>| #[trigger] connects(e, s, a, b);
    let t = choose|t: Seq<V>| #[trigger] connects(e, t, b, c);
    lemma_walks_join(e, s, t);
    assert(connects(e, joined(s, t), a, c));
}

/// A walk keeps its cost in every larger graph.
pub proof fn lemma_walk_in_supergraph<V>(e: Edges<V>, f: Edges<V>, s: Seq<V>)
    requires
        subgraph(e, f),
        is_walk(e, s),
    ensures
        is_walk(f, s),
        walk_cost(f, s) == walk_cost(e, s),
    decreases s.len(),
{
    assert forall|i: int| 0 <= i < s.len() - 1 implies #[trigger] linked(f, s, i) by {
        assert(linked(e, s, i));
    }
    if s.len() > 1 {
        let r = s.drop_last();
        assert forall|i: int| 0 <= i < r.len() - 1 implies #[trigger] linked(e, r, i) by {
            assert(linked(e, s, i));
        }
        lemma_walk_in_supergraph(e, f, r);
        assert(linked(e, s, s.len() - 2));
    }
}

pub proof fn lemma_reaches_in_supergraph<V>(e: Edges<V>, f: Edges<V>, a: V, b: V)
    requires
        subgraph(e, f),
        reaches(e, a, b),
    ensures
        reaches(f, a, b),
{
    let s = choose|s: Seq<V>| #[trigger] connects(e, s, a, b);
    lemma_walk_in_supergraph(e, f, s);
    assert(connects(f, s, a, b));
}

/// A walk turned round is a walk where every edge can be taken back.
pub proof fn lemma_walk_reverses<V>(e: Edges<V>, s: Seq<V>)
    requires
        two_way(e),
        is_walk(e, s),
    ensures
        connects(e, s.reverse(), s.last(), s[0]),
{
    let t = s.reverse();
    assert forall|i: int| 0 <= i < t.len() - 1 implies #[trigger] linked(e, t, i) by {
        assert(linked(e, s, s.len() - 2 - i));
    }
}

pub proof fn lemma_reaches_symmetric<V>(e: Edges<V>, a: V, b: V)
    requires
        two_way(e),
        reaches(e, a, b),
    ensures
        reaches(e, b, a),
{
    let s = choose|s: Seq<V>| #[trigger] connects(e, s, a, b);
    lemma_walk_reverses(e, s);
    assert(connects(e, s.reverse(), b, a));
}

/// A walk never leaves a set that no edge leaves.
pub proof fn lemma_walk_stays<V>(e: Edges<V>, inside: spec_fn(V) -> bool, s: Seq<V>)
    requires
        is_walk(e, s),
        inside(s[0]),
        forall|a: V, b: V| inside(a) && (#[trigger] e(a, b)) is Some ==> inside(b),
    ensures
        forall|i: int| 0 <= i < s.len() ==> inside(#[trigger] s[i]),
    decreases s.len(),
{
    if s.len() > 1 {
        let r = s.drop_last();
        assert forall|i: int| 0 <= i < r.len() - 1 implies #[trigger] linked(e, r, i) by {
            assert(linked(e, s, i));
        }
        lemma_walk_stays(e, inside, r);
        assert(linked(e, s, s.len() - 2));
        assert forall|i: int| 0 <= i < s.len() implies inside(#[trigger] s[i]) by {
            if i < s.len() - 1 {
                assert(s[i] == r[i]);
            } else {
                assert(inside(r[s.len() - 2]));
                assert(e(s[s.len() - 2], s[i]) is Some);
            }
        }
    }
}

/// A part of a walk is a walk, and costs no more.
pub proof fn lemma_walk_part<V>(e: Edges<V>, s: Seq<V>, from: int, to: int)
    requires
        is_walk(e, s),
        0 <= from < to <= s.len(),
    ensures
        connects(e, s.subrange(from, to), s[from], s[to - 1]),
        walk_cost(e, s.subrange(from, to)) <= walk_cost(e, s),
    decreases s.len(),
{
    let t = s.subrange(from, to);
    assert forall|i: int| 0 <= i < t.len() - 1 implies #[trigger] linked(e, t, i) by {
        assert(linked(e, s, from + i));
    }
    if s.len() > 1 {
        let r = s.drop_last();
        assert forall|i: int| 0 <= i < r.len() - 1 implies #[trigger] linked(e, r, i) by {
            assert(linked(e, s, i));
        }
        if to < s.len() {
            lemma_walk_part(e, r, from, to);
            assert(r.subrange(from, to) =~= t);
        } else if from < to - 1 {
            lemma_walk_part(e, r, from, to - 1);
            assert(r.subrange(from, to - 1) =~= t.drop_last());
            assert(t[t.len() - 2] == s[s.len() - 2]);
        }
    }
}

/// A walk costs what its two parts cost.
pub proof fn lemma_walk_splits<V>(e: Edges<V>, s: Seq<V>, i: int)
    requires
        is_walk(e, s),
        0 <= i < s.len(),
    ensures
        connects(e, s.subrange(0, i + 1), s[0], s[i]),
        connects(e, s.subrange(i, s.len() as int), s[i], s.last()),
        walk_cost(e, s) == walk_cost(e, s.subrange(0, i + 1)) + walk_cost(
            e,
            s.subrange(i, s.len() as int),
        ),
{
    let (u, v) = (s.subrange(0, i + 1), s.subrange(i, s.len() as int));
    assert forall|k: int| 0 <= k < u.len() - 1 implies #[trigger] linked(e, u, k) by {
        assert(linked(e, s, k));
    }
    assert forall|k: int| 0 <= k < v.len() - 1 implies #[trigger] linked(e, v, k) by {
        assert(linked(e, s, i + k));
    }
    lemma_walks_join(e, u, v);
    assert(joined(u, v) =~= s);
}

} // verus!
