use vstd::prelude::*;

use super::model::{Link, LinkId, Node, NodeId, Pin, PinId, PinKind};
use super::spec::{
    all_pins, can_link, connections_distinct, first_node, is_connected, is_io_node,
    lemma_all_pins_split, lemma_all_pins_take_succ, lemma_filter_keeps_distinct,
    lemma_filter_subset, lemma_filter_take_succ, lemma_first_node_at, lemma_first_node_none,
    lemma_first_pin_at, lemma_first_pin_none, lemma_link_filter_keeps_ids,
    lemma_node_filter_keeps_ids, lemma_on_node_take_succ, lemma_pin_kind_filter,
    lemma_pin_kind_push, link_directed, link_ids_below, link_ids_distinct, links_off_node,
    links_off_pin, links_without_id, node_ids_below, node_ids_distinct, nodes_without_id, on_node,
    pin_ids_below, pin_ids_distinct, pin_kind, pins_disjoint, pins_distinct_within,
};

verus! {

/// Mutable graph state. This is the single source of truth for the
/// graph's structure. The UI layer reads from and writes to this.
#[derive(Debug, Clone)]
pub struct GraphState {
    pub nodes: Vec<Node>,
    pub links: Vec<Link>,
    next_node_id: i32,
    next_pin_id: i32,
    next_link_id: i32,
}

/// What a `GraphState` holds, as mathematical values.
pub struct GraphModel {
    pub nodes: Seq<Node>,
    pub links: Seq<Link>,
    /// The value the next call of `next_node_id` hands out.
    pub next_node: int,
    /// The value the next call of `next_pin_id` hands out.
    pub next_pin: int,
    /// The value the next call of `next_link_id` hands out.
    pub next_link: int,
}

impl GraphModel {
    /// Every link runs from an output pin to an input pin of the graph
    /// (each pin taken as the first pin with that id, node by node).
    pub open spec fn links_valid(self) -> bool {
        forall|l: Link| #[trigger] self.links.contains(l) ==> link_directed(self.nodes, l)
    }

    /// No two links join the same output pin to the same input pin.
    pub open spec fn links_distinct(self) -> bool {
        connections_distinct(self.links)
    }

    /// The ids are as the allocators hand them out: node ids, pin ids and
    /// link ids are each unique and below the next id to be handed out, and
    /// every link is directed and joins a pair of pins no other link joins.
    pub open spec fn well_formed(self) -> bool {
        &&& node_ids_distinct(self.nodes)
        &&& node_ids_below(self.nodes, self.next_node)
        &&& pin_ids_distinct(self.nodes)
        &&& pin_ids_below(self.nodes, self.next_pin)
        &&& link_ids_distinct(self.links)
        &&& link_ids_below(self.links, self.next_link)
        &&& self.links_valid()
        &&& self.links_distinct()
    }

    /// `n` may join the graph without breaking `well_formed`: its id and its
    /// pins' ids are allocated (below the next ids) and used nowhere else,
    /// and its pins' ids differ from one another.
    pub open spec fn admits_node(self, n: Node) -> bool {
        &&& n.id.0 < self.next_node
        &&& forall|a: int| 0 <= a < self.nodes.len() ==> (#[trigger] self.nodes[a]).id != n.id
        &&& pins_distinct_within(n)
        &&& forall|a: int| 0 <= a < self.nodes.len() ==> pins_disjoint(#[trigger] self.nodes[a], n)
        &&& forall|j: int| 0 <= j < n.pins@.len() ==> (#[trigger] n.pins@[j]).id.0 < self.next_pin
    }

    /// `l` may join the graph's links without breaking `well_formed`'s id
    /// conditions: its id is allocated and no link carries it yet.
    pub open spec fn admits_link_id(self, l: Link) -> bool {
        &&& l.id.0 < self.next_link
        &&& forall|i: int| 0 <= i < self.links.len() ==> (#[trigger] self.links[i]).id != l.id
    }

    /// `self` with its nodes replaced by `nodes`.
    pub open spec fn with_nodes(self, nodes: Seq<Node>) -> GraphModel {
        GraphModel { nodes, ..self }
    }

    /// `self` with its links replaced by `links`.
    pub open spec fn with_links(self, links: Seq<Link>) -> GraphModel {
        GraphModel { links, ..self }
    }

    /// `self` and `other` hold the same three id counters.
    pub open spec fn same_counters(self, other: GraphModel) -> bool {
        &&& self.next_node == other.next_node
        &&& self.next_pin == other.next_pin
        &&& self.next_link == other.next_link
    }
}

impl View for GraphState {
    type V = GraphModel;

    closed spec fn view(&self) -> GraphModel {
        GraphModel {
            nodes: self.nodes@,
            links: self.links@,
            next_node: self.next_node_id as int,
            next_pin: self.next_pin_id as int,
            next_link: self.next_link_id as int,
        }
    }
}

impl GraphState {
    /// An empty graph whose id counters all start at 0.
    pub fn new() -> (g: Self)
        ensures
            g@.nodes == Seq::<Node>::empty(),
            g@.links == Seq::<Link>::empty(),
            g@.next_node == 0,
            g@.next_pin == 0,
            g@.next_link == 0,
            g@.well_formed(),
    {
        GraphState {
            nodes: Vec::new(),
            links: Vec::new(),
            next_node_id: 0,
            next_pin_id: 0,
            next_link_id: 0,
        }
    }

    /// A graph made of the given parts (the form a saved graph is read back in).
    pub fn from_parts(
        nodes: Vec<Node>,
        links: Vec<Link>,
        next_node_id: i32,
        next_pin_id: i32,
        next_link_id: i32,
    ) -> (g: Self)
        ensures
            g@.nodes == nodes@,
            g@.links == links@,
            g@.next_node == next_node_id,
            g@.next_pin == next_pin_id,
            g@.next_link == next_link_id,
    {
        GraphState { nodes, links, next_node_id, next_pin_id, next_link_id }
    }

    /// The three id counters, in the order node, pin, link.
    pub fn counters(&self) -> (c: (i32, i32, i32))
        ensures
            c.0 == self@.next_node,
            c.1 == self@.next_pin,
            c.2 == self@.next_link,
    {
        (self.next_node_id, self.next_pin_id, self.next_link_id)
    }

    /// Allocate the next available node ID.
    pub fn next_node_id(&mut self) -> (id: NodeId)
        requires
            old(self)@.next_node < i32::MAX,
        ensures
            id.0 == old(self)@.next_node,
            final(self)@.next_node == old(self)@.next_node + 1,
            final(self)@.next_pin == old(self)@.next_pin,
            final(self)@.next_link == old(self)@.next_link,
            final(self)@.nodes == old(self)@.nodes,
            final(self)@.links == old(self)@.links,
            old(self)@.well_formed() ==> final(self)@.well_formed(),
    {
        let id = NodeId(self.next_node_id);
        self.next_node_id = self.next_node_id + 1;
        id
    }

    /// Allocate the next available pin ID.
    pub fn next_pin_id(&mut self) -> (id: PinId)
        requires
            old(self)@.next_pin < i32::MAX,
        ensures
            id.0 == old(self)@.next_pin,
            final(self)@.next_pin == old(self)@.next_pin + 1,
            final(self)@.next_node == old(self)@.next_node,
            final(self)@.next_link == old(self)@.next_link,
            final(self)@.nodes == old(self)@.nodes,
            final(self)@.links == old(self)@.links,
            old(self)@.well_formed() ==> final(self)@.well_formed(),
    {
        let id = PinId(self.next_pin_id);
        self.next_pin_id = self.next_pin_id + 1;
        id
    }

    /// Allocate the next available link ID.
    pub fn next_link_id(&mut self) -> (id: LinkId)
        requires
            old(self)@.next_link < i32::MAX,
        ensures
            id.0 == old(self)@.next_link,
            final(self)@.next_link == old(self)@.next_link + 1,
            final(self)@.next_node == old(self)@.next_node,
            final(self)@.next_pin == old(self)@.next_pin,
            final(self)@.nodes == old(self)@.nodes,
            final(self)@.links == old(self)@.links,
            old(self)@.well_formed() ==> final(self)@.well_formed(),
    {
        let id = LinkId(self.next_link_id);
        self.next_link_id = self.next_link_id + 1;
        id
    }

    /// Add a node to the graph.
    pub fn add_node(&mut self, node: Node)
        ensures
            final(self)@.nodes == old(self)@.nodes.push(node),
            final(self)@.links == old(self)@.links,
            final(self)@.same_counters(old(self)@),
            old(self)@.links_valid() ==> final(self)@.links_valid(),
            old(self)@.well_formed() && old(self)@.admits_node(node) ==> final(self)@.well_formed(),
    {
        proof {
            assert forall|l: Link| #[trigger] old(self)@.links.contains(l) && old(self)@.links_valid()
                implies link_directed(old(self)@.nodes.push(node), l) by {
                lemma_pin_kind_push(old(self)@.nodes, node, l.from);
                lemma_pin_kind_push(old(self)@.nodes, node, l.to);
            }
        }
        self.nodes.push(node);
    }

    /// The kind of the first pin with id `id`, walking the nodes in order.
    pub(crate) fn find_pin_kind(&self, id: PinId) -> (kind: Option<PinKind>)
        ensures
            kind == pin_kind(self@.nodes, id),
    {
        let ghost nodes = self@.nodes;
        let mut i: usize = 0;
        while i < self.nodes.len()
            invariant
                nodes == self@.nodes,
                0 <= i <= nodes.len(),
                forall|k: int|
                    0 <= k < all_pins(nodes.take(i as int)).len() ==> #[trigger] all_pins(
                        nodes.take(i as int),
                    )[k].id != id,
            decreases nodes.len() - i,
        {
            let pins = &self.nodes[i].pins;
            let ghost before = all_pins(nodes.take(i as int));
            let mut j: usize = 0;
            while j < pins.len()
                invariant
                    nodes == self@.nodes,
                    0 <= i < nodes.len(),
                    pins@ == nodes[i as int].pins@,
                    before == all_pins(nodes.take(i as int)),
                    0 <= j <= pins.len(),
                    forall|k: int| 0 <= k < before.len() ==> #[trigger] before[k].id != id,
                    forall|k: int| 0 <= k < j ==> #[trigger] pins@[k].id != id,
                decreases pins.len() - j,
            {
                if pins[j].id == id {
                    proof {
                        lemma_all_pins_split(nodes, i as int);
                        let all = all_pins(nodes);
                        let at = before.len() + j;
                        assert(all[at] == pins@[j as int]);
                        assert forall|k: int| 0 <= k < at implies all[k].id != id by {
                            if k < before.len() {
                                assert(all[k] == before[k]);
                            } else {
                                assert(all[k] == pins@[k - before.len()]);
                            }
                        }
                        lemma_first_pin_at(all, id, at);
                    }
                    return Some(pins[j].kind);
                }
                j += 1;
            }
            proof {
                lemma_all_pins_take_succ(nodes, i as int);
                let next = all_pins(nodes.take(i + 1));
                assert forall|k: int| 0 <= k < next.len() implies #[trigger] next[k].id != id by {
                    if k < before.len() {
                        assert(next[k] == before[k]);
                    } else {
                        assert(next[k] == pins@[k - before.len()]);
                    }
                }
            }
            i += 1;
        }
        proof {
            assert(nodes.take(nodes.len() as int) =~= nodes);
            lemma_first_pin_none(all_pins(nodes), id);
        }
        None
    }

    /// Whether some link already joins `from` to `to`.
    fn has_connection(&self, from: PinId, to: PinId) -> (found: bool)
        ensures
            found == is_connected(self@.links, from, to),
    {
        let mut i: usize = 0;
        while i < self.links.len()
            invariant
                0 <= i <= self.links@.len(),
                forall|k: int|
                    0 <= k < i ==> !(#[trigger] self.links@[k].from == from && self.links@[k].to
                        == to),
            decreases self.links@.len() - i,
        {
            if self.links[i].from == from && self.links[i].to == to {
                return true;
            }
            i += 1;
        }
        false
    }

    /// Add a link, returning false if it would create a duplicate
    /// (same output → same input) or if the pin directions are invalid
    /// (`from` must be an output pin, `to` must be an input pin).
    pub fn add_link(&mut self, link: Link) -> (added: bool)
        ensures
            added == can_link(old(self)@.nodes, old(self)@.links, link),
            final(self)@.links == (if added {
                old(self)@.links.push(link)
            } else {
                old(self)@.links
            }),
            final(self)@.nodes == old(self)@.nodes,
            final(self)@.same_counters(old(self)@),
            old(self)@.links_valid() ==> final(self)@.links_valid(),
            old(self)@.links_distinct() ==> final(self)@.links_distinct(),
            old(self)@.well_formed() && old(self)@.admits_link_id(link) ==> final(self)@.well_formed(),
    {
        let from_kind = self.find_pin_kind(link.from);
        let to_kind = self.find_pin_kind(link.to);
        match (from_kind, to_kind) {
            (Some(PinKind::Output), Some(PinKind::Input)) => {},
            _ => return false,
        }
        let exists = self.has_connection(link.from, link.to);
        if !exists {
            let ghost before = self@.links;
            self.links.push(link);
            proof {
                let after = self@.links;
                assert forall|l: Link| #[trigger] after.contains(l) && old(self)@.links_valid()
                    implies link_directed(self@.nodes, l) by {
                    let k = choose|k: int| 0 <= k < after.len() && after[k] == l;
                    if k < before.len() {
                        assert(before[k] == l);
                        assert(before.contains(l));
                    }
                }
                assert forall|i: int, j: int|
                    0 <= i < j < after.len() && old(self)@.links_distinct() implies !(
                    #[trigger] after[i].from == #[trigger] after[j].from && after[i].to
                        == after[j].to) by {
                    if j == before.len() {
                        assert(after[i] == before[i]);
                    } else {
                        assert(after[i] == before[i] && after[j] == before[j]);
                    }
                }
            }
            true
        } else {
            false
        }
    }

    /// Remove a link by ID.
    pub fn remove_link(&mut self, id: LinkId)
        ensures
            final(self)@.links == links_without_id(old(self)@.links, id),
            final(self)@.nodes == old(self)@.nodes,
            final(self)@.same_counters(old(self)@),
            old(self)@.links_valid() ==> final(self)@.links_valid(),
            old(self)@.links_distinct() ==> final(self)@.links_distinct(),
            old(self)@.well_formed() ==> final(self)@.well_formed(),
    {
        let ghost keep = |l: Link| l.id != id;
        let mut kept: Vec<Link> = Vec::new();
        let mut i: usize = 0;
        while i < self.links.len()
            invariant
                0 <= i <= self.links@.len(),
                kept@ == self.links@.take(i as int).filter(keep),
                keep == (|l: Link| l.id != id),
            decreases self.links@.len() - i,
        {
            let l = self.links[i];
            proof {
                lemma_filter_take_succ(self.links@, keep, i as int);
            }
            if l.id != id {
                kept.push(l);
            }
            i += 1;
        }
        proof {
            assert(self.links@.take(self.links@.len() as int) =~= self.links@);
            lemma_filtered_links_keep_invariants(self@, keep);
        }
        self.links = kept;
    }

    /// Remove all links connected to a given pin.
    pub fn remove_links_for_pin(&mut self, pin: PinId)
        ensures
            final(self)@.links == links_off_pin(old(self)@.links, pin),
            final(self)@.nodes == old(self)@.nodes,
            final(self)@.same_counters(old(self)@),
            old(self)@.links_valid() ==> final(self)@.links_valid(),
            old(self)@.links_distinct() ==> final(self)@.links_distinct(),
            old(self)@.well_formed() ==> final(self)@.well_formed(),
    {
        let ghost keep = |l: Link| l.from != pin && l.to != pin;
        let mut kept: Vec<Link> = Vec::new();
        let mut i: usize = 0;
        while i < self.links.len()
            invariant
                0 <= i <= self.links@.len(),
                kept@ == self.links@.take(i as int).filter(keep),
                keep == (|l: Link| l.from != pin && l.to != pin),
            decreases self.links@.len() - i,
        {
            let l = self.links[i];
            proof {
                lemma_filter_take_succ(self.links@, keep, i as int);
            }
            if l.from != pin && l.to != pin {
                kept.push(l);
            }
            i += 1;
        }
        proof {
            assert(self.links@.take(self.links@.len() as int) =~= self.links@);
            lemma_filtered_links_keep_invariants(self@, keep);
        }
        self.links = kept;
    }

    /// Add a node with id `id` and title `title` carrying a fresh input pin
    /// labelled "In" and then a fresh output pin labelled "Out".
    pub fn add_io_node(&mut self, id: NodeId, title: String)
        requires
            old(self)@.next_pin < i32::MAX - 1,
        ensures
            final(self)@.nodes.len() == old(self)@.nodes.len() + 1,
            final(self)@.nodes.take(old(self)@.nodes.len() as int) == old(self)@.nodes,
            is_io_node(
                final(self)@.nodes.last(),
                id,
                title@,
                PinId(old(self)@.next_pin as i32),
                PinId((old(self)@.next_pin + 1) as i32),
            ),
            final(self)@.links == old(self)@.links,
            final(self)@.next_node == old(self)@.next_node,
            final(self)@.next_pin == old(self)@.next_pin + 2,
            final(self)@.next_link == old(self)@.next_link,
            old(self)@.links_valid() ==> final(self)@.links_valid(),
            old(self)@.well_formed() && id.0 < old(self)@.next_node && (forall|a: int|
                0 <= a < old(self)@.nodes.len() ==> (#[trigger] old(self)@.nodes[a]).id != id)
                ==> final(self)@.well_formed(),
    {
        let pin_in = self.next_pin_id();
        let pin_out = self.next_pin_id();
        let node = Node {
            id,
            title,
            pins: vec![
                Pin { id: pin_in, kind: PinKind::Input, label: String::from_str("In") },
                Pin { id: pin_out, kind: PinKind::Output, label: String::from_str("Out") },
            ],
        };
        self.add_node(node);
        proof {
            assert(self@.nodes.take(old(self)@.nodes.len() as int) =~= old(self)@.nodes);
        }
    }

    /// The index of the first node with id `id`, if any.
    pub fn position_of_node(&self, id: NodeId) -> (pos: Option<usize>)
        ensures
            match pos {
                Some(i) => {
                    &&& i < self@.nodes.len()
                    &&& self@.nodes[i as int].id == id
                    &&& forall|k: int| 0 <= k < i ==> (#[trigger] self@.nodes[k]).id != id
                    &&& first_node(self@.nodes, id) == Some(self@.nodes[i as int])
                },
                None => {
                    &&& forall|k: int| 0 <= k < self@.nodes.len() ==> (#[trigger] self@.nodes[k]).id != id
                    &&& first_node(self@.nodes, id) is None
                },
            },
    {
        let mut i: usize = 0;
        while i < self.nodes.len()
            invariant
                0 <= i <= self@.nodes.len(),
                forall|k: int| 0 <= k < i ==> (#[trigger] self@.nodes[k]).id != id,
            decreases self@.nodes.len() - i,
        {
            if self.nodes[i].id == id {
                proof {
                    lemma_first_node_at(self@.nodes, id, i as int);
                }
                return Some(i);
            }
            i += 1;
        }
        proof {
            lemma_first_node_none(self@.nodes, id);
        }
        None
    }

    /// Remove a node and all its links by ID.
    ///
    /// Every node with id `id` is removed, together with every link that
    /// touches a pin of any such node.
    pub fn remove_node(&mut self, id: NodeId)
        ensures
            final(self)@.nodes == nodes_without_id(old(self)@.nodes, id),
            final(self)@.links == links_off_node(old(self)@.links, old(self)@.nodes, id),
            final(self)@.same_counters(old(self)@),
            old(self)@.links_valid() ==> final(self)@.links_valid(),
            old(self)@.links_distinct() ==> final(self)@.links_distinct(),
            old(self)@.well_formed() ==> final(self)@.well_formed(),
    {
        let ghost start = self@;
        let ghost nodes = self@.nodes;
        // Collect the pins of every node with this id before removing them.
        let mut pins_to_remove: Vec<PinId> = Vec::new();
        let mut i: usize = 0;
        proof {
            assert(nodes.take(0) =~= Seq::<Node>::empty());
        }
        while i < self.nodes.len()
            invariant
                self@ == start,
                nodes == start.nodes,
                0 <= i <= nodes.len(),
                forall|p: PinId| #[trigger] pins_to_remove@.contains(p) == on_node(nodes.take(i as int), id, p),
            decreases nodes.len() - i,
        {
            if self.nodes[i].id == id {
                let pins = &self.nodes[i].pins;
                let ghost before = pins_to_remove@;
                let mut j: usize = 0;
                while j < pins.len()
                    invariant
                        0 <= j <= pins@.len(),
                        forall|p: PinId| #[trigger] pins_to_remove@.contains(p) == (before.contains(p)
                            || exists|k: int| 0 <= k < j && (#[trigger] pins@[k]).id == p),
                    decreases pins@.len() - j,
                {
                    let ghost prev = pins_to_remove@;
                    pins_to_remove.push(pins[j].id);
                    proof {
                        assert forall|p: PinId| #[trigger] pins_to_remove@.contains(p) == (before.contains(p)
                            || exists|k: int| 0 <= k < j + 1 && (#[trigger] pins@[k]).id == p) by {
                            if pins_to_remove@.contains(p) {
                                let t = choose|t: int| 0 <= t < pins_to_remove@.len() && pins_to_remove@[t] == p;
                                if t < prev.len() {
                                    assert(prev.contains(p));
                                    if !before.contains(p) {
                                        let k = choose|k: int| 0 <= k < j && (#[trigger] pins@[k]).id == p;
                                        assert(0 <= k < j + 1 && pins@[k].id == p);
                                    }
                                } else {
                                    assert(pins@[j as int].id == p);
                                }
                            }
                            if before.contains(p) {
                                assert(prev.contains(p));
                                let t = choose|t: int| 0 <= t < prev.len() && prev[t] == p;
                                assert(pins_to_remove@[t] == p);
                            } else if exists|k: int| 0 <= k < j + 1 && (#[trigger] pins@[k]).id == p {
                                let k = choose|k: int| 0 <= k < j + 1 && (#[trigger] pins@[k]).id == p;
                                if k < j {
                                    assert(prev.contains(p));
                                    let t = choose|t: int| 0 <= t < prev.len() && prev[t] == p;
                                    assert(pins_to_remove@[t] == p);
                                } else {
                                    assert(pins_to_remove@[prev.len() as int] == p);
                                }
                            }
                        }
                    }
                    j += 1;
                }
                proof {
                    assert forall|p: PinId| #[trigger] pins_to_remove@.contains(p) == on_node(nodes.take(i + 1), id, p) by {
                        lemma_on_node_take_succ(nodes, id, i as int, p);
                    }
                }
            } else {
                proof {
                    assert forall|p: PinId| #[trigger] pins_to_remove@.contains(p) == on_node(nodes.take(i + 1), id, p) by {
                        lemma_on_node_take_succ(nodes, id, i as int, p);
                    }
                }
            }
            i += 1;
        }
        proof {
            assert(nodes.take(nodes.len() as int) =~= nodes);
        }

        // Drop every link touching any of the node's pins.
        let ghost keep_link = |l: Link| !on_node(start.nodes, id, l.from) && !on_node(start.nodes, id, l.to);
        let mut kept: Vec<Link> = Vec::new();
        let mut i: usize = 0;
        while i < self.links.len()
            invariant
                self@ == start,
                forall|p: PinId| #[trigger] pins_to_remove@.contains(p) == on_node(start.nodes, id, p),
                0 <= i <= self@.links.len(),
                kept@ == self@.links.take(i as int).filter(keep_link),
                keep_link == (|l: Link| !on_node(start.nodes, id, l.from) && !on_node(start.nodes, id, l.to)),
            decreases self@.links.len() - i,
        {
            let l = self.links[i];
            proof {
                lemma_filter_take_succ(self@.links, keep_link, i as int);
            }
            if !contains_pin(&pins_to_remove, l.from) && !contains_pin(&pins_to_remove, l.to) {
                kept.push(l);
            }
            i += 1;
        }
        proof {
            assert(self@.links.take(self@.links.len() as int) =~= self@.links);
            lemma_filtered_links_keep_invariants(start, keep_link);
        }
        self.links = kept;

        // Drop every node with that id.
        let ghost keep_node = |n: Node| n.id != id;
        let mut old_nodes: Vec<Node> = Vec::new();
        std::mem::swap(&mut old_nodes, &mut self.nodes);
        let mut kept_nodes: Vec<Node> = Vec::new();
        for n in it: old_nodes.into_iter()
            invariant
                it.seq() == start.nodes,
                kept_nodes@ == it.seq().take(it.index()).filter(keep_node),
                keep_node == (|n: Node| n.id != id),
        {
            proof {
                lemma_filter_take_succ(it.seq(), keep_node, it.index());
            }
            if n.id != id {
                kept_nodes.push(n);
            }
        }
        proof {
            assert(start.nodes.take(start.nodes.len() as int) =~= start.nodes);
        }
        self.nodes = kept_nodes;
        proof {
            if start.well_formed() {
                lemma_node_filter_keeps_ids(start.nodes, keep_node, start.next_node, start.next_pin);
                lemma_link_filter_keeps_ids(start.links, keep_link, start.next_link);
            }
            if start.links_valid() {
                lemma_remove_node_keeps_directed(start, id);
            }
        }
    }
}

impl Default for GraphState {
    /// The empty graph, as `GraphState::new`.
    fn default() -> (g: Self)
        ensures
            g@.nodes == Seq::<Node>::empty(),
            g@.links == Seq::<Link>::empty(),
            g@.next_node == 0,
            g@.next_pin == 0,
            g@.next_link == 0,
            g@.well_formed(),
    {
        GraphState::new()
    }
}

/// Keeping only some of the links keeps them directed and distinct.
proof fn lemma_filtered_links_keep_invariants(g: GraphModel, keep: spec_fn(Link) -> bool)
    ensures
        g.links_valid() ==> g.with_links(g.links.filter(keep)).links_valid(),
        g.links_distinct() ==> g.with_links(g.links.filter(keep)).links_distinct(),
        g.well_formed() ==> g.with_links(g.links.filter(keep)).well_formed(),
{
    if g.well_formed() {
        lemma_link_filter_keeps_ids(g.links, keep, g.next_link);
    }
    if g.links_valid() {
        assert forall|l: Link| #[trigger] g.links.filter(keep).contains(l) implies link_directed(
            g.nodes,
            l,
        ) by {
            lemma_filter_subset(g.links, keep, l);
        }
    }
    if g.links_distinct() {
        lemma_filter_keeps_distinct(g.links, keep);
    }
}

} // verus!

verus! {

/// Whether `pins` holds `pin`.
fn contains_pin(pins: &Vec<PinId>, pin: PinId) -> (found: bool)
    ensures
        found == pins@.contains(pin),
{
    let mut i: usize = 0;
    while i < pins.len()
        invariant
            0 <= i <= pins@.len(),
            forall|k: int| 0 <= k < i ==> pins@[k] != pin,
        decreases pins@.len() - i,
    {
        if pins[i] == pin {
            return true;
        }
        i += 1;
    }
    false
}

/// Removing every node with id `id`, and every link touching a pin of any
/// of them, leaves every remaining link directed.
proof fn lemma_remove_node_keeps_directed(g: GraphModel, id: NodeId)
    requires
        g.links_valid(),
    ensures
        g.with_nodes(nodes_without_id(g.nodes, id)).with_links(
            links_off_node(g.links, g.nodes, id),
        ).links_valid(),
{
    let keep_node = |n: Node| n.id != id;
    let keep_link = |l: Link| !on_node(g.nodes, id, l.from) && !on_node(g.nodes, id, l.to);
    let nodes2 = g.nodes.filter(keep_node);
    assert forall|l: Link| #[trigger] g.links.filter(keep_link).contains(l) implies link_directed(
        nodes2,
        l,
    ) by {
        lemma_filter_subset(g.links, keep_link, l);
        lemma_pin_kind_filter(g.nodes, keep_node, l.from);
        lemma_pin_kind_filter(g.nodes, keep_node, l.to);
    }
}

} // verus!
