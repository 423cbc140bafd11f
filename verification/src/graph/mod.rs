//! The graph of the nodes of the cache.

mod a_star;
mod dijkstra;
mod explore;
mod node_list;

pub(crate) use a_star::a_star_search;
pub use a_star::node_estimates_are_steady;
pub(crate) use dijkstra::dijkstra_search;
pub use explore::{is_searchable, node_edges, node_estimates};
pub use node_list::{
    is_absorbed, is_similar, is_way_back, shifted, without_node, Node, NodeList, NodeView,
};
