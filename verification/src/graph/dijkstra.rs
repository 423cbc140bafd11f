//! The Dijkstra search from node to node.

use vstd::prelude::*;

use super::explore::{explore, is_searchable, node_edges};
use super::node_list::NodeList;
use crate::course::by_cost;
use crate::grid::Element;
use crate::key_map::{NodeIDMap, NodeIDSet};
use crate::neighbors::Neighborhood;
use crate::path::Path;
use crate::search::{are_cheapest_paths, are_found, ranks, to_set, Explored};
use crate::NodeID;

verus! {

/// Finds paths from node to node from `start` to `goals`, in the order of their costs.
pub(crate) fn dijkstra_search<N: Neighborhood>(
    nodes: &NodeList,
    neighborhood: &N,
    start: NodeID,
    goals: &[NodeID],
    Ghost(weight): Ghost<nat>,
) -> (paths: NodeIDMap<Path<NodeID>>)
    requires
        nodes.wf(),
        is_searchable(nodes@, neighborhood.size(), weight),
        nodes@.contains_key(start),
    ensures
        paths.wf(),
        are_cheapest_paths(
            node_edges(nodes@),
            start,
            goals@,
            false,
            nodes@.dom().len() as int,
            weight,
            paths@,
        ),
        are_found(node_edges(nodes@), by_cost(), start, goals@, false, paths@),
{
    let wanted: NodeIDSet = to_set(goals);
    let ghost rest = |id: NodeID| 0nat;
    let explored: Explored<NodeID, Element<NodeID>> = explore(
        nodes,
        neighborhood,
        start,
        &wanted,
        false,
        None,
        Ghost(rest),
        Ghost(weight),
    );
    proof {
        assert(ranks::<NodeID, Element<NodeID>>(explored.search.estimate()) =~= by_cost());
    }
    explored.to_paths(Ghost(goals@), Ghost(false), Ghost(nodes@.dom().len() as int))
}

} // verus!
