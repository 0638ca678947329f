use node_graph::app::seed_graph;
use node_graph::graph::{GraphState, LinkId, NodeId, PinId, PinKind};
use node_graph::ui::editor::{
    add_numbered_node, apply_context_action, classify_pins, connect_pins, context_action,
    delete_selection, node_title, remove_destroyed_link, selection_after_click, ContextAction, Interactions,
};

fn frame(hovered: bool, node: Option<NodeId>, new_link: Option<(i32, i32)>) -> Interactions {
    Interactions {
        editor_hovered: hovered,
        hovered_node: node,
        hovered_link: None,
        minimap_hovered: None,
        new_link,
        destroyed: None,
        selected_nodes: Vec::new(),
        selected_links: Vec::new(),
    }
}

#[test]
fn seed_graph_has_source_and_sink() {
    let g = seed_graph();
    assert_eq!(g.nodes.len(), 2);
    assert_eq!(g.nodes[0].title, "Source");
    assert_eq!(g.nodes[1].title, "Sink");
    assert_eq!(g.nodes[0].id, NodeId(0));
    assert_eq!(g.nodes[1].id, NodeId(1));
    assert_eq!(g.nodes[0].pins[0].id, PinId(0));
    assert_eq!(g.nodes[0].pins[0].kind, PinKind::Input);
    assert_eq!(g.nodes[0].pins[1].id, PinId(1));
    assert_eq!(g.nodes[0].pins[1].kind, PinKind::Output);
    assert_eq!(g.nodes[1].pins[0].id, PinId(2));
    assert_eq!(g.nodes[1].pins[1].id, PinId(3));
    assert!(g.links.is_empty());
    assert_eq!(g.counters(), (2, 4, 0));
}

#[test]
fn classify_pins_orders_output_first() {
    let g = seed_graph();
    // Pin 1 is Source.Out, pin 2 is Sink.In.
    assert_eq!(classify_pins(1, 2, &g), Some((PinId(1), PinId(2))));
    assert_eq!(classify_pins(2, 1, &g), Some((PinId(1), PinId(2))));
    // Same direction.
    assert_eq!(classify_pins(0, 2, &g), None);
    assert_eq!(classify_pins(1, 3, &g), None);
    // Unknown pin.
    assert_eq!(classify_pins(1, 40, &g), None);
}

#[test]
fn connect_pins_adds_once_and_spends_an_id_each_time() {
    let mut g = seed_graph();
    assert!(connect_pins(&mut g, 2, 1));
    assert_eq!(g.links.len(), 1);
    assert_eq!((g.links[0].id, g.links[0].from, g.links[0].to), (LinkId(0), PinId(1), PinId(2)));
    // Duplicate: rejected, but an id was allocated.
    assert!(!connect_pins(&mut g, 1, 2));
    assert_eq!(g.links.len(), 1);
    assert_eq!(g.counters().2, 2);
    // Same direction: nothing allocated.
    assert!(!connect_pins(&mut g, 0, 2));
    assert_eq!(g.counters().2, 2);
}

#[test]
fn node_titles_are_decimal() {
    assert_eq!(node_title(NodeId(0)), "Node 0");
    assert_eq!(node_title(NodeId(7)), "Node 7");
    assert_eq!(node_title(NodeId(1204)), "Node 1204");
    assert_eq!(node_title(NodeId(-35)), "Node -35");
    assert_eq!(node_title(NodeId(i32::MIN)), "Node -2147483648");
    assert_eq!(node_title(NodeId(i32::MAX)), "Node 2147483647");
}

#[test]
fn add_numbered_node_titles_by_id() {
    let mut g = seed_graph();
    let id = add_numbered_node(&mut g);
    assert_eq!(id, NodeId(2));
    assert_eq!(g.nodes.len(), 3);
    assert_eq!(g.nodes[2].title, "Node 2");
    assert_eq!(g.nodes[2].pins[0].id, PinId(4));
    assert_eq!(g.nodes[2].pins[1].id, PinId(5));
    assert_eq!(g.counters(), (3, 6, 0));
}

#[test]
fn context_action_prefers_link_then_node() {
    assert_eq!(context_action(Some(LinkId(3)), Some(NodeId(1))), ContextAction::DeleteLink(LinkId(3)));
    assert_eq!(context_action(None, Some(NodeId(1))), ContextAction::DeleteNode(NodeId(1)));
    assert_eq!(context_action(None, None), ContextAction::AddNode);
    assert_eq!(ContextAction::DeleteLink(LinkId(3)).label(), "Delete Link");
    assert_eq!(ContextAction::DeleteNode(NodeId(1)).label(), "Delete Node");
    assert_eq!(ContextAction::AddNode.label(), "Add Node");
}

#[test]
fn apply_context_action_edits_graph() {
    let mut g = seed_graph();
    connect_pins(&mut g, 1, 2);
    assert_eq!(apply_context_action(&mut g, ContextAction::DeleteLink(LinkId(0))), None);
    assert!(g.links.is_empty());
    connect_pins(&mut g, 1, 2);
    assert_eq!(apply_context_action(&mut g, ContextAction::DeleteNode(NodeId(1))), None);
    assert_eq!(g.nodes.len(), 1);
    assert!(g.links.is_empty());
    assert_eq!(apply_context_action(&mut g, ContextAction::AddNode), Some(NodeId(2)));
    assert_eq!(g.nodes[1].title, "Node 2");
}

#[test]
fn delete_selection_removes_nodes_then_links() {
    let mut g = seed_graph();
    let extra = add_numbered_node(&mut g);
    assert!(connect_pins(&mut g, 1, 2));
    assert!(connect_pins(&mut g, 1, 4));
    assert_eq!(g.links.len(), 2);
    delete_selection(&mut g, &vec![extra.0], &vec![0]);
    assert_eq!(g.nodes.len(), 2);
    assert!(g.links.is_empty());
}

#[test]
fn selection_follows_left_clicks_on_canvas() {
    let current = Some(NodeId(4));
    assert_eq!(selection_after_click(current, &frame(true, Some(NodeId(1)), None), true), Some(NodeId(1)));
    assert_eq!(selection_after_click(current, &frame(true, None, None), true), None);
    assert_eq!(selection_after_click(current, &frame(false, Some(NodeId(1)), None), true), current);
    assert_eq!(selection_after_click(current, &frame(true, Some(NodeId(1)), Some((1, 2))), true), current);
    assert_eq!(selection_after_click(current, &frame(true, Some(NodeId(1)), None), false), current);
}

#[test]
fn new_graph_is_empty() {
    let g = GraphState::new();
    assert!(g.nodes.is_empty());
    assert!(g.links.is_empty());
    assert_eq!(g.counters(), (0, 0, 0));
}

fn kind_of(g: &GraphState, pin: PinId) -> Option<PinKind> {
    g.nodes
        .iter()
        .flat_map(|n| &n.pins)
        .find(|p| p.id == pin)
        .map(|p| p.kind)
}

fn assert_well_formed(g: &GraphState) {
    let (next_node, next_pin, next_link) = g.counters();
    for (i, a) in g.nodes.iter().enumerate() {
        assert!(a.id.0 < next_node);
        for b in &g.nodes[i + 1..] {
            assert_ne!(a.id, b.id);
        }
    }
    let pins: Vec<PinId> = g.nodes.iter().flat_map(|n| &n.pins).map(|p| p.id).collect();
    for (i, p) in pins.iter().enumerate() {
        assert!(p.0 < next_pin);
        assert!(!pins[i + 1..].contains(p));
    }
    for (i, l) in g.links.iter().enumerate() {
        assert!(l.id.0 < next_link);
        assert_eq!(kind_of(g, l.from), Some(PinKind::Output));
        assert_eq!(kind_of(g, l.to), Some(PinKind::Input));
        for m in &g.links[i + 1..] {
            assert_ne!(l.id, m.id);
            assert!(!(l.from == m.from && l.to == m.to));
        }
    }
}

#[test]
fn editing_keeps_the_graph_well_formed() {
    let mut g = seed_graph();
    assert_well_formed(&g);
    let c = add_numbered_node(&mut g);
    let d = add_numbered_node(&mut g);
    assert_well_formed(&g);
    connect_pins(&mut g, 1, 2);
    connect_pins(&mut g, 5, 6);
    connect_pins(&mut g, 7, 0);
    connect_pins(&mut g, 1, 2);
    assert_eq!(g.links.len(), 3);
    assert_well_formed(&g);
    apply_context_action(&mut g, ContextAction::DeleteNode(c));
    assert_well_formed(&g);
    delete_selection(&mut g, &vec![d.0, 99], &vec![0]);
    assert_well_formed(&g);
    assert_eq!(g.nodes.len(), 2);
    assert!(g.links.is_empty());
}

#[test]
fn remove_destroyed_link_removes_only_that_id() {
    let mut g = seed_graph();
    connect_pins(&mut g, 1, 2);
    remove_destroyed_link(&mut g, None);
    assert_eq!(g.links.len(), 1);
    remove_destroyed_link(&mut g, Some(5));
    assert_eq!(g.links.len(), 1);
    remove_destroyed_link(&mut g, Some(0));
    assert!(g.links.is_empty());
}
