//! The A* search from node to node.

use vstd::prelude::*;

use super::explore::{explore, is_searchable, node_edges, node_estimates};
use super::node_list::{NodeList, NodeView};
use crate::course::{by_estimate, is_found};
use crate::grid::HeuristicElement;
use crate::key_map::NodeIDSet;
use crate::neighbors::Neighborhood;
use crate::path::Path;
use crate::search::{is_cheapest, ranks, Explored};
use crate::walk::{connects, reaches, walk_cost};
use crate::NodeID;

verus! {

/// The estimates never drop by more than a connection costs, and stay small enough to be
/// added to a cost up to `limit`.
pub open spec fn node_estimates_are_steady<N: Neighborhood>(
    nodes: Map<NodeID, NodeView>,
    neighborhood: N,
    goal: NodeID,
    limit: nat,
) -> bool {
    &&& forall|a: NodeID, b: NodeID|
        (#[trigger] node_edges(nodes)(a, b)) is Some ==> neighborhood.distance(
            nodes[a].pos,
            nodes[goal].pos,
        ) <= node_edges(nodes)(a, b)->0 + neighborhood.distance(nodes[b].pos, nodes[goal].pos)
    &&& forall|a: NodeID|
        nodes.contains_key(a) ==> #[trigger] neighborhood.distance(nodes[a].pos, nodes[goal].pos)
            + limit <= usize::MAX
}

/// Finds a path from node to node, looking at the nodes that seem closest to the goal
/// first.
pub(crate) fn a_star_search<N: Neighborhood>(
    nodes: &NodeList,
    start: NodeID,
    goal: NodeID,
    neighborhood: &N,
    Ghost(weight): Ghost<nat>,
) -> (path: Option<Path<NodeID>>)
    requires
        nodes.wf(),
        is_searchable(nodes@, neighborhood.size(), weight),
        nodes@.contains_key(start),
        nodes@.contains_key(goal),
    ensures
        ({
            let e = node_edges(nodes@);
            match path {
                Some(path) => {
                    &&& connects(e, path.points(), start, goal)
                    &&& walk_cost(e, path.points()) == path.total()
                    &&& path.points().len() <= nodes@.dom().len()
                    &&& path.total() <= nodes@.dom().len() * weight
                    &&& is_found(
                        e,
                        by_estimate(node_estimates(nodes@, *neighborhood, Some(goal))),
                        start,
                        goal,
                        path.points(),
                        path.total() as nat,
                    )
                    &&& node_estimates_are_steady(
                        nodes@,
                        *neighborhood,
                        goal,
                        nodes@.dom().len() * weight,
                    ) ==> is_cheapest(e, start, goal, path.total() as nat)
                },
                None => !reaches(e, start, goal),
            }
        }),
{
    let ghost e = node_edges(nodes@);
    let mut goals: NodeIDSet = NodeIDSet::new();
    goals.insert(goal, ());
    let ghost rest = |id: NodeID| node_estimates(nodes@, *neighborhood, Some(goal))(id) as nat;
    let explored: Explored<NodeID, HeuristicElement<NodeID>> = explore(
        nodes,
        neighborhood,
        start,
        &goals,
        true,
        Some(goal),
        Ghost(rest),
        Ghost(weight),
    );
    if explored.found.len() == 0 {
        assert(goals@.dom().contains(goal));
        return None;
    }
    proof {
        assert(goals@.dom().contains(explored.found@[0]));
        assert(explored.found@[0] == goal);
        if node_estimates_are_steady(nodes@, *neighborhood, goal, nodes@.dom().len() * weight) {
            assert forall|a: NodeID, b: NodeID| (#[trigger] e(a, b)) is Some implies rest(a)
                <= e(a, b)->0 + rest(b) by {
                assert(nodes@[a].edges.contains_key(b));
            }
            assert(explored.search.guided());
        }
        explored.lemma_found(goals@.dom(), true, goal);
        let estimate = node_estimates(nodes@, *neighborhood, Some(goal));
        assert(ranks::<NodeID, HeuristicElement<NodeID>>(estimate) =~= by_estimate(estimate));
        assert(explored.search.order().len() * weight <= nodes@.dom().len() * weight)
            by (nonlinear_arith)
            requires
                explored.search.order().len() <= nodes@.dom().len(),
        ;
    }
    Some(explored.path_to(goal, Ghost(goals@.dom()), Ghost(true)))
}

} // verus!
