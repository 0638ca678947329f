use vstd::prelude::*;

use crate::graph::model::{Link, NodeId, PinId};
use crate::graph::spec::is_io_node;
use crate::graph::state::GraphState;

verus! {

/// The graph the editor opens with: a node "Source" and a node "Sink",
/// each with an input pin "In" and an output pin "Out", and no links.
pub fn seed_graph() -> (graph: GraphState)
    ensures
        graph@.nodes.len() == 2,
        is_io_node(graph@.nodes[0], NodeId(0), "Source"@, PinId(0), PinId(1)),
        is_io_node(graph@.nodes[1], NodeId(1), "Sink"@, PinId(2), PinId(3)),
        graph@.links == Seq::<Link>::empty(),
        graph@.next_node == 2,
        graph@.next_pin == 4,
        graph@.next_link == 0,
        graph@.links_valid(),
        graph@.links_distinct(),
        graph@.well_formed(),
{
    let mut graph = GraphState::new();
    let n1 = graph.next_node_id();
    graph.add_io_node(n1, String::from_str("Source"));
    let n2 = graph.next_node_id();
    graph.add_io_node(n2, String::from_str("Sink"));
    proof {
        assert(graph@.nodes[0] == graph@.nodes.take(1).last());
    }
    graph
}

} // verus!
