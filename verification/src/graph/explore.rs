//! What the searches from node to node have in common.

use vstd::prelude::*;

use super::node_list::{Node, NodeList, NodeView};
use crate::course::{
    expanded, is_course, lemma_course_begins, lemma_course_goes_on, lemma_expansion_begins,
    lemma_expansion_ends, lemma_expansion_goes_on, lemma_reached_begins, lemma_reached_goes_on,
    partly_expanded, reached,
};
use crate::heap::QueueEntry;
use crate::key_map::NodeIDSet;
use crate::neighbors::{on_grid, Neighborhood};
use crate::search::{
    is_search_tree, lemma_all_found, lemma_goal_found, lemma_search_is_exhaustive, lemma_tree_walk,
    ranks, Explored, Reached, Search,
};
use crate::walk::{connects, is_walk, reaches, walk_cost, Edges};
use crate::{Cost, NodeID};

verus! {

/// The connections of the nodes, each at the cost of its path.
pub open spec fn node_edges(nodes: Map<NodeID, NodeView>) -> Edges<NodeID> {
    |a: NodeID, b: NodeID|
        if nodes.contains_key(a) && nodes[a].edges.contains_key(b) {
            Some(nodes[a].edges[b].total() as nat)
        } else {
            None
        }
}

/// The nodes lie on the grid, every connection leads to a node and costs no more than
/// `weight`, and no walk from node to node gets too expensive for a [`Cost`].
pub open spec fn is_searchable(
    nodes: Map<NodeID, NodeView>,
    size: (usize, usize),
    weight: nat,
) -> bool {
    &&& nodes.dom().finite()
    &&& nodes.dom().len() * weight <= usize::MAX
    &&& forall|a: NodeID| #[trigger] nodes.contains_key(a) ==> on_grid(nodes[a].pos, size)
    &&& forall|a: NodeID, b: NodeID|
        nodes.contains_key(a) && #[trigger] nodes[a].edges.contains_key(b) ==> {
            &&& nodes.contains_key(b)
            &&& nodes[a].edges[b].total() <= weight
        }
}

/// The estimates of a search: the distance to the target, where there is one.
pub open spec fn node_estimates<N: Neighborhood>(
    nodes: Map<NodeID, NodeView>,
    neighborhood: N,
    target: Option<NodeID>,
) -> spec_fn(NodeID) -> Cost {
    |id: NodeID|
        match target {
            Some(goal) if nodes.contains_key(id) => neighborhood.distance(
                nodes[id].pos,
                nodes[goal].pos,
            ),
            _ => 0,
        }
}

/// The estimate for a node.
fn estimate<N: Neighborhood>(
    nodes: &NodeList,
    neighborhood: &N,
    id: NodeID,
    target: Option<NodeID>,
) -> (cost: Cost)
    requires
        nodes.wf(),
        nodes@.contains_key(id),
        target matches Some(goal) ==> nodes@.contains_key(goal),
        forall|a: NodeID| #[trigger]
            nodes@.contains_key(a) ==> on_grid(nodes@[a].pos, neighborhood.size()),
    ensures
        cost == node_estimates(nodes@, *neighborhood, target)(id),
{
    match target {
        Some(goal) => neighborhood.heuristic(nodes.get(id).pos, nodes.get(goal).pos),
        None => 0,
    }
}

/// A search does not get to anything but nodes.
proof fn lemma_stays_in_graph(
    nodes: Map<NodeID, NodeView>,
    size: (usize, usize),
    start: NodeID,
    best: Reached<NodeID>,
    order: Seq<NodeID>,
    weight: nat,
)
    requires
        is_searchable(nodes, size, weight),
        is_search_tree(node_edges(nodes), start, best, order, weight),
        nodes.contains_key(start),
    ensures
        forall|id: NodeID| #[trigger] best.contains_key(id) ==> nodes.contains_key(id),
        order.len() <= nodes.dom().len(),
{
    assert forall|id: NodeID| #[trigger] best.contains_key(id) implies nodes.contains_key(id) by {
        if id != start {
            let u = best[id].1;
            assert(node_edges(nodes)(u, id) is Some);
            assert(nodes[u].edges.contains_key(id));
        }
    }
    order.unique_seq_to_set();
    assert forall|id: NodeID| order.to_set().contains(id) implies nodes.dom().contains(id) by {
        let i = choose|i: int| 0 <= i < order.len() && order[i] == id;
        assert(best.contains_key(order[i]));
    }
    vstd::set_lib::lemma_len_subset(order.to_set(), nodes.dom());
}

/// Searches the nodes for goals.
///
/// The search ends when all goals have been found, or, with `only_closest`, when the first
/// one has been found. With a target, nodes closer to it are looked at first.
pub(crate) fn explore<N: Neighborhood, T: QueueEntry<NodeID>>(
    nodes: &NodeList,
    neighborhood: &N,
    start: NodeID,
    goals: &NodeIDSet,
    only_closest: bool,
    target: Option<NodeID>,
    Ghost(rest): Ghost<spec_fn(NodeID) -> nat>,
    Ghost(weight): Ghost<nat>,
) -> (explored: Explored<NodeID, T>)
    requires
        nodes.wf(),
        is_searchable(nodes@, neighborhood.size(), weight),
        nodes@.contains_key(start),
        target matches Some(goal) ==> nodes@.contains_key(goal),
        goals.wf(),
    ensures
        explored.answers(goals@.dom(), only_closest),
        explored.search.edges() == node_edges(nodes@),
        explored.search.start() == start,
        explored.search.estimate() == node_estimates(nodes@, *neighborhood, target),
        explored.search.rest() == rest,
        explored.search.weight() == weight,
        explored.search.limit() == nodes@.dom().len() * weight,
        explored.search.order().len() <= nodes@.dom().len(),
{
    let ghost size = neighborhood.size();
    let ghost e = node_edges(nodes@);
    let ghost limit = nodes@.dom().len() * weight;
    let ghost goal_set = goals@.dom();
    proof {
        goals.lemma_len();
    }
    let first: Cost = estimate(nodes, neighborhood, start, target);
    let mut search: Search<NodeID, T> = Search::new(
        start,
        first,
        Ghost(e),
        Ghost(node_estimates(nodes@, *neighborhood, target)),
        Ghost(rest),
        Ghost(weight),
        Ghost(limit),
    );
    let mut found: Vec<NodeID> = Vec::new();
    proof {
        lemma_course_begins(e, ranks::<NodeID, T>(search.estimate()), start);
        lemma_reached_begins(e, start);
        assert(search.order().take(0) =~= search.order());
    }
    if goals.len() == 0 {
        return Explored { search, found, expanded: Ghost(0) };
    }
    loop
        invariant
            nodes.wf(),
            is_searchable(nodes@, size, weight),
            size == neighborhood.size(),
            nodes@.contains_key(start),
            target matches Some(goal) ==> nodes@.contains_key(goal),
            e == node_edges(nodes@),
            limit == nodes@.dom().len() * weight,
            goals.wf(),
            goal_set == goals@.dom(),
            goal_set.finite(),
            goal_set.len() == goals.entries().len(),
            search.wf(search.order().len() as int),
            search.edges() == e,
            search.start() == start,
            search.estimate() == node_estimates(nodes@, *neighborhood, target),
            search.rest() == rest,
            search.weight() == weight,
            search.limit() == limit,
            is_course(e, ranks::<NodeID, T>(search.estimate()), start, search.order()),
            search.best() == reached(e, start, search.order()),
            found@.no_duplicates(),
            found@.len() < goals.entries().len(),
            only_closest ==> found@.len() == 0,
            forall|i: int|
                0 <= i < found@.len() ==> {
                    &&& goal_set.contains(#[trigger] found@[i])
                    &&& search.order().contains(found@[i])
                },
            forall|g: NodeID|
                search.order().contains(g) && #[trigger] goal_set.contains(g) ==> found@.contains(
                    g,
                ),
        decreases nodes@.dom().len() - search.order().len(),
    {
        let ghost before = search.order();
        proof {
            search.lemma_wf(before.len() as int);
            lemma_stays_in_graph(nodes@, size, start, search.best(), before, weight);
        }
        let (current, cost) = match search.next() {
            Some(next) => next,
            None => {
                proof {
                    assert(before.take(before.len() as int) =~= before);
                    assert forall|g: NodeID| #[trigger] goal_set.contains(g) implies (
                    found@.contains(g) <==> reaches(e, start, g)) by {
                        search.lemma_wf(before.len() as int);
                        lemma_search_is_exhaustive(e, start, search.best(), before, weight, g);
                        if found@.contains(g) {
                            assert(before.contains(g));
                        }
                    }
                }
                return Explored { search, found, expanded: Ghost(before.len() as int) };
            },
        };
        let ghost n = before.len() as int;
        proof {
            lemma_course_goes_on(e, ranks::<NodeID, T>(search.estimate()), start, before, current);
            assert(search.order().take(n) =~= before);
            assert(search.order().drop_last() =~= before);
            lemma_reached_goes_on(e, start, search.order());
            search.lemma_wf(n);
            lemma_stays_in_graph(nodes@, size, start, search.best(), search.order(), weight);
            assert forall|p: NodeID| before.contains(p) implies search.order().contains(p) by {
                let i = choose|i: int| 0 <= i < before.len() && before[i] == p;
                assert(search.order()[i] == p);
            }
            assert(search.order()[n] == current);
            assert forall|p: NodeID|
                search.order().contains(p) && p != current implies before.contains(p) by {
                let i = choose|i: int| 0 <= i < search.order().len() && search.order()[i] == p;
                assert(before[i] == p);
            }
        }
        if goals.contains_key(&current) {
            proof {
                assert(goal_set.contains(current));
            }
            let ghost previous = found@;
            found.push(current);
            proof {
                lemma_goal_found(previous, current, before, search.order(), goal_set);
            }
            if only_closest {
                proof {
                    assert(found@[0] == current);
                    assert forall|i: int| 0 <= i < search.order().len() - 1 implies !goal_set.contains(
                        #[trigger] search.order()[i],
                    ) by {
                        assert(before.contains(before[i]));
                    }
                    if search.guided() {
                        assert forall|g: NodeID, s: Seq<NodeID>|
                            goal_set.contains(g) && #[trigger] connects(
                                e,
                                s,
                                start,
                                g,
                            ) implies search.best()[current].0 + rest(current) <= walk_cost(e, s)
                            + rest(g) by {
                            if before.contains(g) {
                                assert(previous.contains(g));
                            }
                            assert(is_walk(e, s));
                        }
                    }
                }
                return Explored { search, found, expanded: Ghost(n) };
            }
            if found.len() == goals.len() {
                proof {
                    lemma_all_found(found@, goal_set);
                    assert forall|g: NodeID| #[trigger] goal_set.contains(g) implies (
                    found@.contains(g) <==> reaches(e, start, g)) by {
                        let i = choose|i: int| 0 <= i < found@.len() && found@[i] == g;
                        assert(search.order().contains(found@[i]));
                        let j = choose|j: int|
                            0 <= j < search.order().len() && search.order()[j] == g;
                        assert(search.best().contains_key(search.order()[j]));
                        let s = lemma_tree_walk(
                            e,
                            start,
                            search.best(),
                            search.order(),
                            weight,
                            g,
                        );
                        assert(connects(e, s, start, g));
                    }
                }
                return Explored { search, found, expanded: Ghost(n) };
            }
        }
        expand(nodes, neighborhood, current, cost, target, &mut search, Ghost(weight));
    }
}

/// Reaches the nodes that the node finished last is connected to.
fn expand<N: Neighborhood, T: QueueEntry<NodeID>>(
    nodes: &NodeList,
    neighborhood: &N,
    current: NodeID,
    cost: Cost,
    target: Option<NodeID>,
    search: &mut Search<NodeID, T>,
    Ghost(weight): Ghost<nat>,
)
    requires
        nodes.wf(),
        is_searchable(nodes@, neighborhood.size(), weight),
        nodes@.contains_key(old(search).start()),
        target matches Some(goal) ==> nodes@.contains_key(goal),
        nodes@.contains_key(current),
        old(search).order().len() > 0,
        old(search).wf(old(search).order().len() - 1),
        old(search).order().last() == current,
        old(search).best().contains_key(current),
        old(search).best()[current].0 == cost,
        old(search).edges() == node_edges(nodes@),
        old(search).estimate() == node_estimates(nodes@, *neighborhood, target),
        old(search).weight() == weight,
        old(search).limit() == nodes@.dom().len() * weight,
    ensures
        final(search).same_search(old(search)),
        final(search).order() == old(search).order(),
        final(search).wf(old(search).order().len() as int),
        final(search).best() == expanded(
            old(search).edges(),
            old(search).best(),
            old(search).order(),
        ),
{
    let ghost e = node_edges(nodes@);
    let ghost n = search.order().len() - 1;
    proof {
        search.lemma_wf(n);
        lemma_stays_in_graph(
            nodes@,
            neighborhood.size(),
            search.start(),
            search.best(),
            search.order(),
            weight,
        );
        assert(search.order()[n] == current);
        assert((n + 1) * weight <= nodes@.dom().len() * weight) by (nonlinear_arith)
            requires
                n + 1 <= nodes@.dom().len(),
        ;
        assert(n * weight + weight == (n + 1) * weight) by (nonlinear_arith);
    }
    let node: &Node = nodes.get(current);
    let ghost entries = node.edges.entries();
    proof {
        node.edges.lemma_entries();
    }
    let count: usize = node.edges.len();
    let ghost initial = *search;
    let ghost mut done = Set::<NodeID>::empty();
    proof {
        lemma_expansion_begins(e, search.best(), search.order());
    }
    for i in 0..count
        invariant
            nodes.wf(),
            is_searchable(nodes@, neighborhood.size(), weight),
            target matches Some(goal) ==> nodes@.contains_key(goal),
            nodes@.contains_key(current),
            node@ == nodes@[current],
            entries == node.edges.entries(),
            count == entries.len(),
            e == node_edges(nodes@),
            n == search.order().len() - 1,
            0 <= n,
            search.wf(n),
            search.same_search(&initial),
            search.order() == initial.order(),
            search.order().last() == current,
            search.best().contains_key(current),
            search.best()[current].0 == cost,
            cost + weight <= search.limit(),
            search.limit() <= usize::MAX,
            search.edges() == e,
            search.estimate() == node_estimates(nodes@, *neighborhood, target),
            search.weight() == weight,
            initial.best()[current].0 == cost,
            search.best() == partly_expanded(e, initial.best(), initial.order(), done),
            forall|j: int|
                0 <= j < i ==> done.contains((#[trigger] entries[j]).0),
            forall|j: int|
                0 <= j < entries.len() ==> {
                    &&& nodes@[current].edges.contains_key((#[trigger] entries[j]).0)
                    &&& nodes@[current].edges[entries[j].0] == entries[j].1
                },
            forall|j: int|
                0 <= j < i && !search.order().contains((#[trigger] entries[j]).0) ==> {
                    &&& search.best().contains_key(entries[j].0)
                    &&& search.best()[entries[j].0].0 <= cost + entries[j].1.total()
                },
    {
        let entry = node.edges.entry_at(i);
        let other: NodeID = entry.0;
        let step: Cost = entry.1.cost();
        proof {
            assert(entries[i as int] == *entry);
            assert(nodes@[current].edges.contains_key(other));
            assert(e(current, other) == Some(step as nat));
        }
        let rank: Cost = estimate(nodes, neighborhood, other, target);
        let ghost previous = *search;
        search.reach(current, other, cost + step, rank);
        proof {
            lemma_expansion_goes_on(
                e,
                initial.best(),
                initial.order(),
                done,
                other,
                (cost + step) as Cost,
            );
            done = done.insert(other);
            assert forall|j: int|
                0 <= j < i + 1 && !search.order().contains((#[trigger] entries[j]).0) implies {
                &&& search.best().contains_key(entries[j].0)
                &&& search.best()[entries[j].0].0 <= cost + entries[j].1.total()
            } by {
                if j < i {
                    assert(previous.best().contains_key(entries[j].0));
                }
            }
        }
    }
    proof {
        assert forall|v: NodeID|
            (#[trigger] search.edges()(search.order().last(), v)) is Some
                && !search.order().contains(v) implies {
            &&& search.best().contains_key(v)
            &&& search.best()[v].0 <= search.best()[search.order().last()].0 + search.edges()(
                search.order().last(),
                v,
            )->0
        } by {
            assert(node.edges@.contains_key(v));
            let j = choose|j: int|
                0 <= j < entries.len() && #[trigger] entries[j] == (v, node.edges@[v]);
            assert(entries[j].0 == v);
        }
        search.lemma_expanded();
        assert forall|v: NodeID| (#[trigger] e(initial.order().last(), v)) is Some implies done.contains(
            v,
        ) by {
            assert(node.edges@.contains_key(v));
            let j = choose|j: int|
                0 <= j < entries.len() && #[trigger] entries[j] == (v, node.edges@[v]);
            assert(entries[j].0 == v);
        }
        lemma_expansion_ends(e, initial.best(), initial.order(), done);
    }
}

} // verus!
