use node_graph::graph::{GraphState, Link, LinkId, Node, NodeId, Pin, PinId, PinKind};

fn make_test_graph() -> GraphState {
    let mut g = GraphState::new();
    let n1 = g.next_node_id();
    let p1_out = g.next_pin_id();
    let p1_in = g.next_pin_id();
    g.add_node(Node {
        id: n1,
        title: "A".into(),
        pins: vec![
            Pin {
                id: p1_out,
                kind: PinKind::Output,
                label: "Out".into(),
            },
            Pin {
                id: p1_in,
                kind: PinKind::Input,
                label: "In".into(),
            },
        ],
    });

    let n2 = g.next_node_id();
    let p2_in = g.next_pin_id();
    g.add_node(Node {
        id: n2,
        title: "B".into(),
        pins: vec![Pin {
            id: p2_in,
            kind: PinKind::Input,
            label: "In".into(),
        }],
    });

    // Link A.Out -> B.In
    let link_id = g.next_link_id();
    g.add_link(Link {
        id: link_id,
        from: p1_out,
        to: p2_in,
    });
    g
}

#[test]
fn test_add_link_prevents_duplicates() {
    let mut g = make_test_graph();
    let dup = Link {
        id: g.next_link_id(),
        from: PinId(1),
        to: PinId(3),
    };
    assert!(!g.add_link(dup), "Duplicate link should be rejected");
}

#[test]
fn test_add_link_rejects_wrong_direction() {
    let mut g = make_test_graph();
    // Input -> Input (both are input pins) — should be rejected
    let bad = Link {
        id: g.next_link_id(),
        from: PinId(0),
        to: PinId(2),
    };
    assert!(!g.add_link(bad), "Input→Input link should be rejected");
    // Output -> Output — also rejected
    let bad2 = Link {
        id: g.next_link_id(),
        from: PinId(1),
        to: PinId(1),
    };
    assert!(!g.add_link(bad2), "Output→Output link should be rejected");
}

#[test]
fn test_remove_node_removes_links() {
    let mut g = make_test_graph();
    assert_eq!(g.links.len(), 1);
    g.remove_node(NodeId(0));
    assert_eq!(g.links.len(), 0, "Links to removed node should be deleted");
    assert_eq!(g.nodes.len(), 1);
}

#[test]
fn test_id_allocation_is_monotonic() {
    let mut g = GraphState::new();
    assert_eq!(g.next_node_id(), NodeId(0));
    assert_eq!(g.next_node_id(), NodeId(1));
    assert_eq!(g.next_pin_id(), PinId(0));
    assert_eq!(g.next_pin_id(), PinId(1));
}

#[test]
fn link_ids_count_up_from_zero() {
    let mut g = GraphState::new();
    assert_eq!(g.next_link_id(), LinkId(0));
    assert_eq!(g.next_link_id(), LinkId(1));
    assert_eq!(g.counters(), (0, 0, 2));
}

#[test]
fn counters_resume_from_parts() {
    let mut g = GraphState::from_parts(Vec::new(), Vec::new(), 7, 11, 13);
    assert_eq!(g.next_node_id(), NodeId(7));
    assert_eq!(g.next_pin_id(), PinId(11));
    assert_eq!(g.next_link_id(), LinkId(13));
    assert_eq!(g.counters(), (8, 12, 14));
}

#[test]
fn add_link_accepts_output_to_input_once() {
    let mut g = make_test_graph();
    // Pin 0 is A's output, pin 1 is A's input: a self-loop on A is a valid direction.
    let l = Link { id: LinkId(5), from: PinId(0), to: PinId(1) };
    assert!(g.add_link(l));
    assert_eq!(g.links.len(), 2);
    assert_eq!(g.links[1].id, LinkId(5));
    // The same pair again is a duplicate, whatever its id.
    let again = Link { id: LinkId(6), from: PinId(0), to: PinId(1) };
    assert!(!g.add_link(again));
    assert_eq!(g.links.len(), 2);
}

#[test]
fn add_link_rejects_reversed_and_unknown_pins() {
    let mut g = make_test_graph();
    // Input -> Output is reversed.
    assert!(!g.add_link(Link { id: LinkId(9), from: PinId(2), to: PinId(0) }));
    // Unknown pins.
    assert!(!g.add_link(Link { id: LinkId(9), from: PinId(42), to: PinId(2) }));
    assert!(!g.add_link(Link { id: LinkId(9), from: PinId(0), to: PinId(42) }));
    assert_eq!(g.links.len(), 1);
}

#[test]
fn add_link_uses_first_pin_with_an_id() {
    let mut g = GraphState::new();
    // Two pins share id 7: the first one (an input) decides its kind.
    g.add_node(Node {
        id: NodeId(0),
        title: "X".into(),
        pins: vec![Pin { id: PinId(7), kind: PinKind::Input, label: "In".into() }],
    });
    g.add_node(Node {
        id: NodeId(1),
        title: "Y".into(),
        pins: vec![
            Pin { id: PinId(7), kind: PinKind::Output, label: "Out".into() },
            Pin { id: PinId(8), kind: PinKind::Input, label: "In".into() },
        ],
    });
    assert!(!g.add_link(Link { id: LinkId(0), from: PinId(7), to: PinId(8) }));
}

#[test]
fn remove_link_drops_every_link_with_the_id() {
    let mut g = make_test_graph();
    g.add_link(Link { id: LinkId(0), from: PinId(0), to: PinId(1) });
    assert_eq!(g.links.len(), 2);
    g.remove_link(LinkId(0));
    assert_eq!(g.links.len(), 0);
    g.remove_link(LinkId(3));
    assert_eq!(g.links.len(), 0);
}

#[test]
fn remove_link_undoes_add_link_with_fresh_id() {
    let mut g = make_test_graph();
    let before: Vec<(i32, i32, i32)> = g.links.iter().map(|l| (l.id.0, l.from.0, l.to.0)).collect();
    assert!(g.add_link(Link { id: LinkId(77), from: PinId(0), to: PinId(1) }));
    g.remove_link(LinkId(77));
    let after: Vec<(i32, i32, i32)> = g.links.iter().map(|l| (l.id.0, l.from.0, l.to.0)).collect();
    assert_eq!(before, after);
}

#[test]
fn remove_links_for_pin_drops_both_ends() {
    let mut g = make_test_graph();
    g.add_link(Link { id: LinkId(1), from: PinId(0), to: PinId(1) });
    assert_eq!(g.links.len(), 2);
    g.remove_links_for_pin(PinId(2));
    assert_eq!(g.links.len(), 1);
    assert_eq!(g.links[0].id, LinkId(1));
    g.remove_links_for_pin(PinId(1));
    assert_eq!(g.links.len(), 0);
}

#[test]
fn remove_node_keeps_other_nodes_in_order() {
    let mut g = make_test_graph();
    g.add_node(Node { id: NodeId(5), title: "C".into(), pins: Vec::new() });
    g.remove_node(NodeId(1));
    assert_eq!(g.nodes.len(), 2);
    assert_eq!(g.nodes[0].id, NodeId(0));
    assert_eq!(g.nodes[1].id, NodeId(5));
    // B's input pin 2 is gone, so its link is gone too.
    assert_eq!(g.links.len(), 0);
    // Removing an unknown node changes nothing.
    g.remove_node(NodeId(99));
    assert_eq!(g.nodes.len(), 2);
}

#[test]
fn position_of_node_finds_first_match() {
    let mut g = make_test_graph();
    g.add_node(Node { id: NodeId(1), title: "again".into(), pins: Vec::new() });
    assert_eq!(g.position_of_node(NodeId(0)), Some(0));
    assert_eq!(g.position_of_node(NodeId(1)), Some(1));
    assert_eq!(g.position_of_node(NodeId(4)), None);
}

#[test]
fn add_io_node_allocates_two_pins() {
    let mut g = GraphState::new();
    let id = g.next_node_id();
    g.add_io_node(id, "Mixer".into());
    assert_eq!(g.nodes.len(), 1);
    let n = &g.nodes[0];
    assert_eq!(n.title, "Mixer");
    assert_eq!(n.pins.len(), 2);
    assert_eq!((n.pins[0].id, n.pins[0].kind, n.pins[0].label.as_str()), (PinId(0), PinKind::Input, "In"));
    assert_eq!((n.pins[1].id, n.pins[1].kind, n.pins[1].label.as_str()), (PinId(1), PinKind::Output, "Out"));
    assert_eq!(g.counters(), (1, 2, 0));
}

#[test]
fn default_is_the_empty_graph() {
    let mut g = GraphState::default();
    assert!(g.nodes.is_empty());
    assert!(g.links.is_empty());
    assert_eq!(g.next_node_id(), NodeId(0));
}

#[test]
fn remove_node_drops_links_of_every_node_with_the_id() {
    let mut g = GraphState::new();
    g.add_node(Node {
        id: NodeId(0),
        title: "A".into(),
        pins: vec![Pin { id: PinId(0), kind: PinKind::Output, label: "Out".into() }],
    });
    g.add_node(Node {
        id: NodeId(1),
        title: "B".into(),
        pins: vec![Pin { id: PinId(1), kind: PinKind::Input, label: "In".into() }],
    });
    g.add_node(Node {
        id: NodeId(1),
        title: "C".into(),
        pins: vec![Pin { id: PinId(2), kind: PinKind::Input, label: "In".into() }],
    });
    assert!(g.add_link(Link { id: LinkId(0), from: PinId(0), to: PinId(2) }));
    assert!(g.add_link(Link { id: LinkId(1), from: PinId(0), to: PinId(1) }));
    g.remove_node(NodeId(1));
    assert_eq!(g.nodes.len(), 1);
    assert!(g.links.is_empty(), "Links into any node with the removed id should be deleted");
}
