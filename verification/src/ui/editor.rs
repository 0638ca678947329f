use vstd::prelude::*;

use crate::graph::model::{Link, LinkId, Node, NodeId, PinId, PinKind};
use crate::graph::spec::{
    is_connected, is_io_node, link_directed, links_off_node, links_without_id, nodes_without_id,
    on_node, pin_kind,
};
use crate::graph::state::{GraphModel, GraphState};

verus! {

// ---------------------------------------------------------------------------
// Decimal rendering of node numbers.
// ---------------------------------------------------------------------------

/// The decimal digit `d` (`d` below 10).
pub open spec fn digit_char(d: nat) -> char {
    if d == 0 {
        '0'
    } else if d == 1 {
        '1'
    } else if d == 2 {
        '2'
    } else if d == 3 {
        '3'
    } else if d == 4 {
        '4'
    } else if d == 5 {
        '5'
    } else if d == 6 {
        '6'
    } else if d == 7 {
        '7'
    } else if d == 8 {
        '8'
    } else {
        '9'
    }
}

/// The decimal digits of `n`, most significant first, without leading zeros.
pub open spec fn decimal(n: nat) -> Seq<char>
    decreases n,
{
    if n < 10 {
        seq![digit_char(n)]
    } else {
        decimal(n / 10).push(digit_char(n % 10))
    }
}

/// `i` written in decimal, with a leading `-` when it is negative.
pub open spec fn signed_decimal(i: int) -> Seq<char> {
    if i < 0 {
        seq!['-'] + decimal((-i) as nat)
    } else {
        decimal(i as nat)
    }
}

/// The title given to a node created from the editor's context menu.
pub open spec fn numbered_title(id: NodeId) -> Seq<char> {
    "Node "@ + signed_decimal(id.0 as int)
}

/// The number a sequence of decimal digit characters reads as.
pub open spec fn digits_value(s: Seq<char>) -> int
    decreases s.len(),
{
    if s.len() == 0 {
        0
    } else {
        digits_value(s.drop_last()) * 10 + ((s.last() as int) - ('0' as int))
    }
}

/// Every character of `s` is one of `0` to `9`.
pub open spec fn all_digits(s: Seq<char>) -> bool {
    forall|i: int| 0 <= i < s.len() ==> '0' <= #[trigger] s[i] <= '9'
}

/// Each digit character is the character `d` places after `0`.
pub proof fn law_digit_char_is_the_digit(d: nat)
    requires
        d < 10,
    ensures
        (digit_char(d) as int) == ('0' as int) + d,
{
}

/// The decimal form of `n` is made of digits, has no leading zero (unless
/// `n` is 0), and reads back as `n`.
pub proof fn law_decimal_reads_back(n: nat)
    ensures
        decimal(n).len() >= 1,
        all_digits(decimal(n)),
        decimal(n)[0] == '0' ==> n == 0,
        digits_value(decimal(n)) == n,
    decreases n,
{
    if n >= 10 {
        law_decimal_reads_back(n / 10);
        let d = decimal(n);
        assert(d.drop_last() =~= decimal(n / 10));
        assert(d[0] == decimal(n / 10)[0]);
        law_digit_char_is_the_digit(n % 10);
        assert(d.last() == digit_char(n % 10));
        assert(digits_value(d) == digits_value(decimal(n / 10)) * 10 + (n % 10));
        assert((n / 10) * 10 + n % 10 == n);
        assert forall|i: int| 0 <= i < d.len() implies '0' <= #[trigger] d[i] <= '9' by {
            if i < d.len() - 1 {
                assert(d[i] == decimal(n / 10)[i]);
            }
        }
    } else {
        assert(decimal(n).drop_last() =~= Seq::<char>::empty());
        law_digit_char_is_the_digit(n);
        assert(digits_value(decimal(n)) == digits_value(Seq::<char>::empty()) * 10 + n);
    }
}

/// The title of a node created from the context menu is "Node " followed
/// by its number in decimal: an optional `-`, then digits that read back as
/// the number's magnitude.
pub proof fn law_node_title_names_the_id(id: NodeId)
    ensures
        numbered_title(id).len() > 5,
        numbered_title(id).take(5) == "Node "@,
        ({
            let rest = numbered_title(id).skip(5);
            if id.0 < 0 {
                &&& rest[0] == '-'
                &&& all_digits(rest.drop_first())
                &&& digits_value(rest.drop_first()) == -(id.0 as int)
            } else {
                &&& all_digits(rest)
                &&& digits_value(rest) == id.0 as int
            }
        }),
{
    reveal_strlit("Node ");
    let t = numbered_title(id);
    let i = id.0 as int;
    if i < 0 {
        law_decimal_reads_back((-i) as nat);
        assert(t.take(5) =~= "Node "@);
        assert(t.skip(5) =~= seq!['-'] + decimal((-i) as nat));
        assert(t.skip(5).drop_first() =~= decimal((-i) as nat));
    } else {
        law_decimal_reads_back(i as nat);
        assert(t.take(5) =~= "Node "@);
        assert(t.skip(5) =~= decimal(i as nat));
    }
}

fn digit_str(d: u64) -> (s: &'static str)
    requires
        d < 10,
    ensures
        s@ == seq![digit_char(d as nat)],
{
    proof {
        reveal_strlit("0");
        reveal_strlit("1");
        reveal_strlit("2");
        reveal_strlit("3");
        reveal_strlit("4");
        reveal_strlit("5");
        reveal_strlit("6");
        reveal_strlit("7");
        reveal_strlit("8");
        reveal_strlit("9");
    }
    if d == 0 {
        "0"
    } else if d == 1 {
        "1"
    } else if d == 2 {
        "2"
    } else if d == 3 {
        "3"
    } else if d == 4 {
        "4"
    } else if d == 5 {
        "5"
    } else if d == 6 {
        "6"
    } else if d == 7 {
        "7"
    } else if d == 8 {
        "8"
    } else {
        "9"
    }
}

fn push_digits(s: &mut String, n: u64)
    ensures
        final(s)@ == old(s)@ + decimal(n as nat),
    decreases n,
{
    if n >= 10 {
        push_digits(s, n / 10);
    }
    s.append(digit_str(n % 10));
    proof {
        if n >= 10 {
            assert(old(s)@ + decimal(n as nat) =~= old(s)@ + decimal((n / 10) as nat) + seq![
                digit_char((n % 10) as nat),
            ]);
        } else {
            assert(decimal(n as nat) == seq![digit_char(n as nat)]);
        }
    }
}

/// The title "Node <n>" for the node with id `id`, `<n>` being its number in decimal.
pub fn node_title(id: NodeId) -> (title: String)
    ensures
        title@ == numbered_title(id),
{
    let mut title = String::from_str("Node ");
    if id.0 < 0 {
        title.append("-");
        let magnitude: i64 = -(id.0 as i64);
        push_digits(&mut title, magnitude as u64);
        proof {
            reveal_strlit("-");
            assert(title@ =~= "Node "@ + signed_decimal(id.0 as int));
        }
    } else {
        push_digits(&mut title, id.0 as u64);
    }
    title
}

// ---------------------------------------------------------------------------
// Turning editor interactions into graph edits.
// ---------------------------------------------------------------------------

/// The (output, input) pair made of the pins with ids `a` and `b`, in
/// whichever order they were given; `None` when the two pins have the same
/// direction or either is not in the graph.
pub open spec fn classified(nodes: Seq<Node>, a: i32, b: i32) -> Option<(PinId, PinId)> {
    match (pin_kind(nodes, PinId(a)), pin_kind(nodes, PinId(b))) {
        (Some(PinKind::Output), Some(PinKind::Input)) => Some((PinId(a), PinId(b))),
        (Some(PinKind::Input), Some(PinKind::Output)) => Some((PinId(b), PinId(a))),
        _ => None,
    }
}

/// Determine which pin is an output and which is an input.
/// Returns `Some((output_pin, input_pin))` when the pair is valid,
/// or `None` if both pins have the same direction or aren't found.
pub fn classify_pins(a: i32, b: i32, graph: &GraphState) -> (pair: Option<(PinId, PinId)>)
    ensures
        pair == classified(graph@.nodes, a, b),
{
    let ka = graph.find_pin_kind(PinId(a));
    let kb = graph.find_pin_kind(PinId(b));
    match (ka, kb) {
        (Some(PinKind::Output), Some(PinKind::Input)) => Some((PinId(a), PinId(b))),
        (Some(PinKind::Input), Some(PinKind::Output)) => Some((PinId(b), PinId(a))),
        _ => None,
    }
}

/// A dragged pair is classified exactly when one end is an output pin and
/// the other an input pin, and then the output comes first.
pub proof fn law_classify_pins_pairs_output_with_input(nodes: Seq<Node>, a: i32, b: i32)
    ensures
        pin_kind(nodes, PinId(a)) == Some(PinKind::Output) && pin_kind(nodes, PinId(b)) == Some(
            PinKind::Input,
        ) ==> classified(nodes, a, b) == Some((PinId(a), PinId(b))),
        pin_kind(nodes, PinId(a)) == Some(PinKind::Input) && pin_kind(nodes, PinId(b)) == Some(
            PinKind::Output,
        ) ==> classified(nodes, a, b) == Some((PinId(b), PinId(a))),
        pin_kind(nodes, PinId(a)) is None || pin_kind(nodes, PinId(b)) is None || pin_kind(
            nodes,
            PinId(a),
        ) == pin_kind(nodes, PinId(b)) ==> classified(nodes, a, b) is None,
{
}

/// Classifying two pins does not depend on the order in which they are given.
pub proof fn law_classify_pins_symmetric(nodes: Seq<Node>, a: i32, b: i32)
    ensures
        classified(nodes, a, b) == classified(nodes, b, a),
{
}

/// A classified pair always joins an output pin to an input pin, so a link
/// built from it passes the direction check of `add_link`.
pub proof fn law_classified_pair_is_directed(nodes: Seq<Node>, a: i32, b: i32, id: LinkId)
    ensures
        match classified(nodes, a, b) {
            Some((from, to)) => link_directed(nodes, Link { id, from, to }),
            None => true,
        },
{
}

/// Record a link the user dragged between the pins `start` and `end`: when
/// they are an output and an input pin, a fresh link id is allocated and a
/// link from the output to the input is added unless the two are already
/// joined. Returns whether a link was added.
pub fn connect_pins(graph: &mut GraphState, start: i32, end: i32) -> (added: bool)
    requires
        classified(old(graph)@.nodes, start, end) is Some ==> old(graph)@.next_link < i32::MAX,
    ensures
        final(graph)@.nodes == old(graph)@.nodes,
        final(graph)@.next_node == old(graph)@.next_node,
        final(graph)@.next_pin == old(graph)@.next_pin,
        match classified(old(graph)@.nodes, start, end) {
            None => {
                &&& !added
                &&& final(graph)@.links == old(graph)@.links
                &&& final(graph)@.next_link == old(graph)@.next_link
            },
            Some((from, to)) => {
                let link = Link { id: LinkId(old(graph)@.next_link as i32), from, to };
                &&& added == !is_connected(old(graph)@.links, from, to)
                &&& final(graph)@.links == (if added {
                    old(graph)@.links.push(link)
                } else {
                    old(graph)@.links
                })
                &&& final(graph)@.next_link == old(graph)@.next_link + 1
            },
        },
        old(graph)@.links_valid() ==> final(graph)@.links_valid(),
        old(graph)@.links_distinct() ==> final(graph)@.links_distinct(),
        old(graph)@.well_formed() ==> final(graph)@.well_formed(),
{
    match classify_pins(start, end, graph) {
        Some((from, to)) => {
            let id = graph.next_link_id();
            graph.add_link(Link { id, from, to })
        },
        None => false,
    }
}

/// Remove the link the user detached this frame, if any.
pub fn remove_destroyed_link(graph: &mut GraphState, destroyed: Option<i32>)
    ensures
        final(graph)@ == (match destroyed {
            Some(raw) => old(graph)@.with_links(links_without_id(old(graph)@.links, LinkId(raw))),
            None => old(graph)@,
        }),
        old(graph)@.links_valid() ==> final(graph)@.links_valid(),
        old(graph)@.links_distinct() ==> final(graph)@.links_distinct(),
        old(graph)@.well_formed() ==> final(graph)@.well_formed(),
{
    if let Some(raw) = destroyed {
        graph.remove_link(LinkId(raw));
    }
}

/// Add a node numbered with a fresh node id, titled "Node <n>", carrying a
/// fresh input pin and a fresh output pin. Returns the new node's id.
pub fn add_numbered_node(graph: &mut GraphState) -> (id: NodeId)
    requires
        old(graph)@.next_node < i32::MAX,
        old(graph)@.next_pin < i32::MAX - 1,
    ensures
        id.0 == old(graph)@.next_node,
        final(graph)@.nodes.len() == old(graph)@.nodes.len() + 1,
        final(graph)@.nodes.take(old(graph)@.nodes.len() as int) == old(graph)@.nodes,
        is_io_node(
            final(graph)@.nodes.last(),
            id,
            numbered_title(id),
            PinId(old(graph)@.next_pin as i32),
            PinId((old(graph)@.next_pin + 1) as i32),
        ),
        final(graph)@.links == old(graph)@.links,
        final(graph)@.next_node == old(graph)@.next_node + 1,
        final(graph)@.next_pin == old(graph)@.next_pin + 2,
        final(graph)@.next_link == old(graph)@.next_link,
        old(graph)@.links_valid() ==> final(graph)@.links_valid(),
        old(graph)@.well_formed() ==> final(graph)@.well_formed(),
{
    let id = graph.next_node_id();
    let title = node_title(id);
    graph.add_io_node(id, title);
    id
}

/// What the graph becomes when node `id` is removed (see `remove_node`).
pub open spec fn after_node_removed(g: GraphModel, id: NodeId) -> GraphModel {
    g.with_nodes(nodes_without_id(g.nodes, id)).with_links(
        links_off_node(g.links, g.nodes, id),
    )
}

/// What the graph becomes when the nodes with the ids `ids` are removed one
/// after the other, in order.
pub open spec fn after_nodes_removed(g: GraphModel, ids: Seq<i32>) -> GraphModel
    decreases ids.len(),
{
    if ids.len() == 0 {
        g
    } else {
        after_node_removed(after_nodes_removed(g, ids.drop_last()), NodeId(ids.last()))
    }
}

/// What the graph becomes when the links with the ids `ids` are removed one
/// after the other, in order.
pub open spec fn after_links_removed(g: GraphModel, ids: Seq<i32>) -> GraphModel
    decreases ids.len(),
{
    if ids.len() == 0 {
        g
    } else {
        let h = after_links_removed(g, ids.drop_last());
        h.with_links(links_without_id(h.links, LinkId(ids.last())))
    }
}

/// Some node of `nodes` whose id is listed in `ids` has a pin with id `pin`.
pub open spec fn on_listed_node(nodes: Seq<Node>, ids: Seq<i32>, pin: PinId) -> bool {
    exists|a: int, j: int|
        0 <= a < nodes.len() && ids.contains(nodes[a].id.0) && 0 <= j < nodes[a].pins@.len() && (
        #[trigger] nodes[a].pins@[j]).id == pin
}

/// Removing the nodes listed in `ids` one after the other keeps exactly the
/// nodes whose id is not listed, and exactly the links touching no pin of a
/// listed node; the id counters stay as they were.
pub proof fn law_removing_listed_nodes(g: GraphModel, ids: Seq<i32>)
    ensures
        forall|n: Node|
            #[trigger] after_nodes_removed(g, ids).nodes.contains(n) <==> (g.nodes.contains(n)
                && !ids.contains(n.id.0)),
        forall|l: Link|
            #[trigger] after_nodes_removed(g, ids).links.contains(l) <==> (g.links.contains(l)
                && !on_listed_node(g.nodes, ids, l.from) && !on_listed_node(g.nodes, ids, l.to)),
        after_nodes_removed(g, ids).same_counters(g),
    decreases ids.len(),
{
    if ids.len() == 0 {
    } else {
        let init = ids.drop_last();
        let x = ids.last();
        law_removing_listed_nodes(g, init);
        let h = after_nodes_removed(g, init);
        assert forall|v: i32| ids.contains(v) <==> (init.contains(v) || v == x) by {
            if ids.contains(v) {
                let k = choose|k: int| 0 <= k < ids.len() && ids[k] == v;
                if k < ids.len() - 1 {
                    assert(init[k] == v);
                }
            }
            if init.contains(v) {
                let k = choose|k: int| 0 <= k < init.len() && init[k] == v;
                assert(ids[k] == v);
            }
            if v == x {
                assert(ids[ids.len() - 1] == v);
            }
        }
        assert forall|n: Node| #[trigger] after_nodes_removed(g, ids).nodes.contains(n) <==> (
        g.nodes.contains(n) && !ids.contains(n.id.0)) by {
            crate::graph::laws::law_nodes_without_id_drops_that_id(h.nodes, NodeId(x), n);
        }
        assert forall|p: PinId|
            (!on_listed_node(g.nodes, init, p) && !on_node(h.nodes, NodeId(x), p))
                <==> !on_listed_node(g.nodes, ids, p) by {
            if on_listed_node(g.nodes, init, p) {
                let (a, j) = choose|a: int, j: int|
                    0 <= a < g.nodes.len() && init.contains(g.nodes[a].id.0) && 0 <= j
                        < g.nodes[a].pins@.len() && (#[trigger] g.nodes[a].pins@[j]).id == p;
                assert(ids.contains(g.nodes[a].id.0));
            }
            if on_node(h.nodes, NodeId(x), p) {
                let (b, j) = choose|b: int, j: int|
                    0 <= b < h.nodes.len() && h.nodes[b].id == NodeId(x) && 0 <= j
                        < h.nodes[b].pins@.len() && (#[trigger] h.nodes[b].pins@[j]).id == p;
                assert(h.nodes.contains(h.nodes[b]));
                assert(g.nodes.contains(h.nodes[b]));
                let a = choose|a: int| 0 <= a < g.nodes.len() && g.nodes[a] == h.nodes[b];
                assert(ids.contains(g.nodes[a].id.0));
                assert(g.nodes[a].pins@[j].id == p);
            }
            if on_listed_node(g.nodes, ids, p) && !on_listed_node(g.nodes, init, p) {
                let (a, j) = choose|a: int, j: int|
                    0 <= a < g.nodes.len() && ids.contains(g.nodes[a].id.0) && 0 <= j
                        < g.nodes[a].pins@.len() && (#[trigger] g.nodes[a].pins@[j]).id == p;
                let m = g.nodes[a];
                assert(!init.contains(m.id.0));
                assert(m.id.0 == x);
                assert(g.nodes.contains(m));
                assert(h.nodes.contains(m));
                let b = choose|b: int| 0 <= b < h.nodes.len() && h.nodes[b] == m;
                assert(h.nodes[b].pins@[j].id == p);
            }
        }
        assert forall|l: Link| #[trigger] after_nodes_removed(g, ids).links.contains(l) <==> (
        g.links.contains(l) && !on_listed_node(g.nodes, ids, l.from) && !on_listed_node(
            g.nodes,
            ids,
            l.to,
        )) by {
            crate::graph::laws::law_links_off_node_drops_links_of_the_node(
                h.links,
                h.nodes,
                NodeId(x),
                l,
            );
            assert(on_node(h.nodes, NodeId(x), l.from) <==> exists|a: int, j: int|
                0 <= a < h.nodes.len() && h.nodes[a].id == NodeId(x) && 0 <= j
                    < h.nodes[a].pins@.len() && (#[trigger] h.nodes[a].pins@[j]).id == l.from);
        }
    }
}

/// Removing the links listed in `ids` one after the other keeps exactly the
/// links whose id is not listed, and leaves the nodes and counters alone.
pub proof fn law_removing_listed_links(g: GraphModel, ids: Seq<i32>)
    ensures
        forall|l: Link|
            #[trigger] after_links_removed(g, ids).links.contains(l) <==> (g.links.contains(l)
                && !ids.contains(l.id.0)),
        after_links_removed(g, ids).nodes == g.nodes,
        after_links_removed(g, ids).same_counters(g),
    decreases ids.len(),
{
    if ids.len() > 0 {
        let init = ids.drop_last();
        let x = ids.last();
        law_removing_listed_links(g, init);
        let h = after_links_removed(g, init);
        assert forall|l: Link| #[trigger] after_links_removed(g, ids).links.contains(l) <==> (
        g.links.contains(l) && !ids.contains(l.id.0)) by {
            crate::graph::laws::law_links_without_id_drops_that_id(h.links, LinkId(x), l);
            let v = l.id.0;
            if ids.contains(v) {
                let k = choose|k: int| 0 <= k < ids.len() && ids[k] == v;
                if k < ids.len() - 1 {
                    assert(init[k] == v);
                }
            }
            if init.contains(v) {
                let k = choose|k: int| 0 <= k < init.len() && init[k] == v;
                assert(ids[k] == v);
            }
            if v == x {
                assert(ids[ids.len() - 1] == v);
            }
        }
    }
}

/// Delete the selected nodes, then the selected links (what the Delete key does).
pub fn delete_selection(graph: &mut GraphState, nodes: &Vec<i32>, links: &Vec<i32>)
    ensures
        final(graph)@ == after_links_removed(after_nodes_removed(old(graph)@, nodes@), links@),
        old(graph)@.links_distinct() ==> final(graph)@.links_distinct(),
        old(graph)@.well_formed() ==> final(graph)@.well_formed(),
{
    let ghost start = graph@;
    let mut i: usize = 0;
    while i < nodes.len()
        invariant
            0 <= i <= nodes@.len(),
            graph@ == after_nodes_removed(start, nodes@.take(i as int)),
            start.links_distinct() ==> graph@.links_distinct(),
            start.well_formed() ==> graph@.well_formed(),
        decreases nodes@.len() - i,
    {
        graph.remove_node(NodeId(nodes[i]));
        proof {
            assert(nodes@.take(i + 1).drop_last() =~= nodes@.take(i as int));
        }
        i += 1;
    }
    proof {
        assert(nodes@.take(nodes@.len() as int) =~= nodes@);
    }
    let ghost mid = graph@;
    let mut j: usize = 0;
    while j < links.len()
        invariant
            0 <= j <= links@.len(),
            graph@ == after_links_removed(mid, links@.take(j as int)),
            start.links_distinct() ==> mid.links_distinct(),
            mid.links_distinct() ==> graph@.links_distinct(),
            start.well_formed() ==> mid.well_formed(),
            mid.well_formed() ==> graph@.well_formed(),
        decreases links@.len() - j,
    {
        graph.remove_link(LinkId(links[j]));
        proof {
            assert(links@.take(j + 1).drop_last() =~= links@.take(j as int));
        }
        j += 1;
    }
    proof {
        assert(links@.take(links@.len() as int) =~= links@);
    }
}

/// The entry the canvas context menu offers, chosen by what was under the
/// cursor when the menu was opened.
#[derive(Debug, Clone, Copy, PartialEq, Eq, Structural)]
pub enum ContextAction {
    /// The cursor was over a link: offer to delete it.
    DeleteLink(LinkId),
    /// The cursor was over a node (and no link): offer to delete it.
    DeleteNode(NodeId),
    /// The cursor was over empty canvas: offer to add a node there.
    AddNode,
}

/// A hovered link takes precedence over a hovered node; with neither, the
/// menu offers to add a node.
pub fn context_action(hovered_link: Option<LinkId>, hovered_node: Option<NodeId>) -> (action: ContextAction)
    ensures
        action == (match (hovered_link, hovered_node) {
            (Some(l), _) => ContextAction::DeleteLink(l),
            (None, Some(n)) => ContextAction::DeleteNode(n),
            (None, None) => ContextAction::AddNode,
        }),
{
    match hovered_link {
        Some(l) => ContextAction::DeleteLink(l),
        None => match hovered_node {
            Some(n) => ContextAction::DeleteNode(n),
            None => ContextAction::AddNode,
        },
    }
}

impl ContextAction {
    /// The menu label of this entry.
    pub fn label(&self) -> (text: &'static str)
        ensures
            text@ == (match *self {
                ContextAction::DeleteLink(_) => "Delete Link"@,
                ContextAction::DeleteNode(_) => "Delete Node"@,
                ContextAction::AddNode => "Add Node"@,
            }),
    {
        match self {
            ContextAction::DeleteLink(_) => "Delete Link",
            ContextAction::DeleteNode(_) => "Delete Node",
            ContextAction::AddNode => "Add Node",
        }
    }
}

/// Carry out a chosen context-menu entry. Returns the id of the node it
/// added, if it added one.
pub fn apply_context_action(graph: &mut GraphState, action: ContextAction) -> (added: Option<NodeId>)
    requires
        action == ContextAction::AddNode ==> old(graph)@.next_node < i32::MAX && old(graph)@.next_pin < i32::MAX - 1,
    ensures
        match action {
            ContextAction::DeleteLink(l) => {
                &&& added is None
                &&& final(graph)@ == old(graph)@.with_links(links_without_id(old(graph)@.links, l))
            },
            ContextAction::DeleteNode(n) => {
                &&& added is None
                &&& final(graph)@ == after_node_removed(old(graph)@, n)
            },
            ContextAction::AddNode => {
                &&& added == Some(NodeId(old(graph)@.next_node as i32))
                &&& final(graph)@.nodes.len() == old(graph)@.nodes.len() + 1
                &&& final(graph)@.nodes.take(old(graph)@.nodes.len() as int) == old(graph)@.nodes
                &&& is_io_node(
                    final(graph)@.nodes.last(),
                    NodeId(old(graph)@.next_node as i32),
                    numbered_title(NodeId(old(graph)@.next_node as i32)),
                    PinId(old(graph)@.next_pin as i32),
                    PinId((old(graph)@.next_pin + 1) as i32),
                )
                &&& final(graph)@.links == old(graph)@.links
                &&& final(graph)@.next_node == old(graph)@.next_node + 1
                &&& final(graph)@.next_pin == old(graph)@.next_pin + 2
                &&& final(graph)@.next_link == old(graph)@.next_link
            },
        },
        old(graph)@.links_distinct() ==> final(graph)@.links_distinct(),
        old(graph)@.well_formed() ==> final(graph)@.well_formed(),
{
    match action {
        ContextAction::DeleteLink(l) => {
            graph.remove_link(l);
            None
        },
        ContextAction::DeleteNode(n) => {
            graph.remove_node(n);
            None
        },
        ContextAction::AddNode => Some(add_numbered_node(graph)),
    }
}

/// What the editor gathered from the canvas during one frame.
pub struct Interactions {
    /// The cursor is over the canvas.
    pub editor_hovered: bool,
    /// The node under the cursor.
    pub hovered_node: Option<NodeId>,
    /// The link under the cursor.
    pub hovered_link: Option<LinkId>,
    /// The node under the cursor in the minimap.
    pub minimap_hovered: Option<NodeId>,
    /// A link the user finished dragging, as the raw ids of its two pins.
    pub new_link: Option<(i32, i32)>,
    /// A link the user detached, by raw id.
    pub destroyed: Option<i32>,
    /// The raw ids of the selected nodes.
    pub selected_nodes: Vec<i32>,
    /// The raw ids of the selected links.
    pub selected_links: Vec<i32>,
}

/// The node shown in the properties panel after a left click: a click on
/// the canvas that did not just finish a link selects the hovered node, or
/// clears the selection over empty space; otherwise the selection stays.
pub fn selection_after_click(current: Option<NodeId>, frame: &Interactions, left_clicked: bool) -> (selected: Option<NodeId>)
    ensures
        selected == (if frame.editor_hovered && frame.new_link is None && left_clicked {
            frame.hovered_node
        } else {
            current
        }),
{
    if frame.editor_hovered && frame.new_link.is_none() && left_clicked {
        frame.hovered_node
    } else {
        current
    }
}

} // verus!
