use vstd::prelude::*;
use vstd::seq_lib::lemma_flatten_concat;

use super::model::{Link, LinkId, Node, NodeId, Pin, PinId, PinKind};

verus! {

/// All pins of `nodes`, node by node and in order within each node.
pub open spec fn all_pins(nodes: Seq<Node>) -> Seq<Pin> {
    nodes.map_values(|n: Node| n.pins@).flatten()
}

/// The first pin of `pins` whose id is `id`.
pub open spec fn first_pin(pins: Seq<Pin>, id: PinId) -> Option<Pin>
    decreases pins.len(),
{
    if pins.len() == 0 {
        None
    } else if pins[0].id == id {
        Some(pins[0])
    } else {
        first_pin(pins.drop_first(), id)
    }
}

/// The kind of the first pin with id `id` among all pins of `nodes`,
/// or `None` if no node has such a pin.
pub open spec fn pin_kind(nodes: Seq<Node>, id: PinId) -> Option<PinKind> {
    match first_pin(all_pins(nodes), id) {
        Some(p) => Some(p.kind),
        None => None,
    }
}

/// `n` is a node with id `id` and title `title` whose pins are an input pin
/// `pin_in` labelled "In" followed by an output pin `pin_out` labelled "Out".
pub open spec fn is_io_node(n: Node, id: NodeId, title: Seq<char>, pin_in: PinId, pin_out: PinId) -> bool {
    &&& n.id == id
    &&& n.title@ == title
    &&& n.pins@.len() == 2
    &&& n.pins@[0].id == pin_in
    &&& n.pins@[0].kind == PinKind::Input
    &&& n.pins@[0].label@ == "In"@
    &&& n.pins@[1].id == pin_out
    &&& n.pins@[1].kind == PinKind::Output
    &&& n.pins@[1].label@ == "Out"@
}

/// `l` runs from an output pin of `nodes` to an input pin of `nodes`.
pub open spec fn link_directed(nodes: Seq<Node>, l: Link) -> bool {
    &&& pin_kind(nodes, l.from) == Some(PinKind::Output)
    &&& pin_kind(nodes, l.to) == Some(PinKind::Input)
}

/// Some link of `links` joins `from` to `to`.
pub open spec fn is_connected(links: Seq<Link>, from: PinId, to: PinId) -> bool {
    exists|i: int| 0 <= i < links.len() && #[trigger] links[i].from == from && links[i].to == to
}

/// `link` may be added: it is directed and joins two pins not yet joined.
pub open spec fn can_link(nodes: Seq<Node>, links: Seq<Link>, link: Link) -> bool {
    &&& link_directed(nodes, link)
    &&& !is_connected(links, link.from, link.to)
}

/// No two links of `links` join the same pair of pins.
pub open spec fn connections_distinct(links: Seq<Link>) -> bool {
    forall|i: int, j: int|
        0 <= i < j < links.len() ==> !(#[trigger] links[i].from == #[trigger] links[j].from
            && links[i].to == links[j].to)
}

/// The links of `links` whose id is not `id`, in order.
pub open spec fn links_without_id(links: Seq<Link>, id: LinkId) -> Seq<Link> {
    links.filter(|l: Link| l.id != id)
}

/// The links of `links` that touch neither end at `pin`, in order.
pub open spec fn links_off_pin(links: Seq<Link>, pin: PinId) -> Seq<Link> {
    links.filter(|l: Link| l.from != pin && l.to != pin)
}

/// Some node of `nodes` with id `id` has a pin with id `pin`.
pub open spec fn on_node(nodes: Seq<Node>, id: NodeId, pin: PinId) -> bool {
    exists|a: int, j: int|
        0 <= a < nodes.len() && nodes[a].id == id && 0 <= j < nodes[a].pins@.len() && (
        #[trigger] nodes[a].pins@[j]).id == pin
}

/// The links of `links` that touch, at neither end, a pin of any node of
/// `nodes` with id `id`, in order.
pub open spec fn links_off_node(links: Seq<Link>, nodes: Seq<Node>, id: NodeId) -> Seq<Link> {
    links.filter(|l: Link| !on_node(nodes, id, l.from) && !on_node(nodes, id, l.to))
}

/// The nodes of `nodes` whose id is not `id`, in order.
pub open spec fn nodes_without_id(nodes: Seq<Node>, id: NodeId) -> Seq<Node> {
    nodes.filter(|n: Node| n.id != id)
}

/// The first node of `nodes` whose id is `id`.
pub open spec fn first_node(nodes: Seq<Node>, id: NodeId) -> Option<Node>
    decreases nodes.len(),
{
    if nodes.len() == 0 {
        None
    } else if nodes[0].id == id {
        Some(nodes[0])
    } else {
        first_node(nodes.drop_first(), id)
    }
}

/// A pin is on a node of the first `i + 1` nodes with id `id` when it is on
/// one of the first `i`, or node `i` has that id and carries the pin.
pub proof fn lemma_on_node_take_succ(nodes: Seq<Node>, id: NodeId, i: int, pin: PinId)
    requires
        0 <= i < nodes.len(),
    ensures
        on_node(nodes.take(i + 1), id, pin) == (on_node(nodes.take(i), id, pin) || (nodes[i].id
            == id && exists|j: int|
            0 <= j < nodes[i].pins@.len() && (#[trigger] nodes[i].pins@[j]).id == pin)),
{
    let pre = nodes.take(i);
    let next = nodes.take(i + 1);
    if on_node(next, id, pin) {
        let (a, j) = choose|a: int, j: int|
            0 <= a < next.len() && next[a].id == id && 0 <= j < next[a].pins@.len() && (
            #[trigger] next[a].pins@[j]).id == pin;
        if a < i {
            assert(pre[a] == next[a]);
            assert(pre[a].pins@[j].id == pin);
        } else {
            assert(next[a] == nodes[i]);
            assert(nodes[i].pins@[j].id == pin);
        }
    }
    if on_node(pre, id, pin) {
        let (a, j) = choose|a: int, j: int|
            0 <= a < pre.len() && pre[a].id == id && 0 <= j < pre[a].pins@.len() && (
            #[trigger] pre[a].pins@[j]).id == pin;
        assert(next[a] == pre[a]);
        assert(next[a].pins@[j].id == pin);
    }
    if nodes[i].id == id && exists|j: int|
        0 <= j < nodes[i].pins@.len() && (#[trigger] nodes[i].pins@[j]).id == pin {
        let j = choose|j: int| 0 <= j < nodes[i].pins@.len() && (#[trigger] nodes[i].pins@[j]).id == pin;
        assert(next[i] == nodes[i]);
        assert(next[i].pins@[j].id == pin);
    }
}

// ---------------------------------------------------------------------------
// Lemmas on the first pin and the first node.
// ---------------------------------------------------------------------------

/// The first pin with id `id` is the one at the least index that carries `id`.
pub proof fn lemma_first_pin_at(pins: Seq<Pin>, id: PinId, i: int)
    requires
        0 <= i < pins.len(),
        pins[i].id == id,
        forall|k: int| 0 <= k < i ==> pins[k].id != id,
    ensures
        first_pin(pins, id) == Some(pins[i]),
    decreases i,
{
    if i > 0 {
        assert(pins[0].id != id);
        lemma_first_pin_at(pins.drop_first(), id, i - 1);
    }
}

/// No pin carries `id`, so there is no first such pin.
pub proof fn lemma_first_pin_none(pins: Seq<Pin>, id: PinId)
    requires
        forall|k: int| 0 <= k < pins.len() ==> pins[k].id != id,
    ensures
        first_pin(pins, id) is None,
    decreases pins.len(),
{
    if pins.len() > 0 {
        lemma_first_pin_none(pins.drop_first(), id);
    }
}

/// The first pin of a concatenation is found in the front part if it is there.
pub proof fn lemma_first_pin_concat(a: Seq<Pin>, b: Seq<Pin>, id: PinId)
    ensures
        first_pin(a + b, id) == (match first_pin(a, id) {
            Some(p) => Some(p),
            None => first_pin(b, id),
        }),
    decreases a.len(),
{
    if a.len() == 0 {
        assert(a + b =~= b);
    } else {
        assert((a + b).drop_first() =~= a.drop_first() + b);
        assert((a + b)[0] == a[0]);
        lemma_first_pin_concat(a.drop_first(), b, id);
    }
}

/// The first node with id `id` is the one at the least index that carries `id`.
pub proof fn lemma_first_node_at(nodes: Seq<Node>, id: NodeId, i: int)
    requires
        0 <= i < nodes.len(),
        nodes[i].id == id,
        forall|k: int| 0 <= k < i ==> nodes[k].id != id,
    ensures
        first_node(nodes, id) == Some(nodes[i]),
    decreases i,
{
    if i > 0 {
        assert(nodes[0].id != id);
        lemma_first_node_at(nodes.drop_first(), id, i - 1);
    }
}

/// No node carries `id`, so there is no first such node.
pub proof fn lemma_first_node_none(nodes: Seq<Node>, id: NodeId)
    requires
        forall|k: int| 0 <= k < nodes.len() ==> nodes[k].id != id,
    ensures
        first_node(nodes, id) is None,
    decreases nodes.len(),
{
    if nodes.len() > 0 {
        lemma_first_node_none(nodes.drop_first(), id);
    }
}

// ---------------------------------------------------------------------------
// Lemmas on the flattened pin sequence.
// ---------------------------------------------------------------------------

/// Appending a node appends its pins.
pub proof fn lemma_all_pins_push(nodes: Seq<Node>, n: Node)
    ensures
        all_pins(nodes.push(n)) == all_pins(nodes) + n.pins@,
{
    let f = |m: Node| m.pins@;
    assert(nodes.push(n).map_values(f) =~= nodes.map_values(f).push(n.pins@));
    nodes.map_values(f).lemma_flatten_push(n.pins@);
}

/// The pins of `nodes` split around node `i`.
pub proof fn lemma_all_pins_split(nodes: Seq<Node>, i: int)
    requires
        0 <= i < nodes.len(),
    ensures
        all_pins(nodes) == all_pins(nodes.take(i)) + nodes[i].pins@ + all_pins(nodes.skip(i + 1)),
{
    let f = |m: Node| m.pins@;
    assert(nodes.map_values(f) =~= nodes.take(i + 1).map_values(f) + nodes.skip(i + 1).map_values(
        f,
    ));
    lemma_flatten_concat(nodes.take(i + 1).map_values(f), nodes.skip(i + 1).map_values(f));
    assert(nodes.take(i + 1) =~= nodes.take(i).push(nodes[i]));
    lemma_all_pins_push(nodes.take(i), nodes[i]);
}

/// The pins of the first `i + 1` nodes are those of the first `i` nodes and then node `i`'s.
pub proof fn lemma_all_pins_take_succ(nodes: Seq<Node>, i: int)
    requires
        0 <= i < nodes.len(),
    ensures
        all_pins(nodes.take(i + 1)) == all_pins(nodes.take(i)) + nodes[i].pins@,
{
    assert(nodes.take(i + 1) =~= nodes.take(i).push(nodes[i]));
    lemma_all_pins_push(nodes.take(i), nodes[i]);
}

/// Appending a node leaves the kind of every pin already present unchanged.
pub proof fn lemma_pin_kind_push(nodes: Seq<Node>, n: Node, id: PinId)
    requires
        pin_kind(nodes, id) is Some,
    ensures
        pin_kind(nodes.push(n), id) == pin_kind(nodes, id),
{
    lemma_all_pins_push(nodes, n);
    lemma_first_pin_concat(all_pins(nodes), n.pins@, id);
}

/// Dropping nodes that have no pin `id` leaves the kind of pin `id` unchanged.
pub proof fn lemma_pin_kind_filter(nodes: Seq<Node>, keep: spec_fn(Node) -> bool, id: PinId)
    requires
        forall|k: int, j: int|
            0 <= k < nodes.len() && !keep(nodes[k]) && 0 <= j < nodes[k].pins@.len()
                ==> #[trigger] nodes[k].pins@[j].id != id,
    ensures
        pin_kind(nodes.filter(keep), id) == pin_kind(nodes, id),
    decreases nodes.len(),
{
    reveal(Seq::filter);
    if nodes.len() == 0 {
    } else {
        let init = nodes.drop_last();
        let last = nodes.last();
        assert forall|k: int, j: int|
            0 <= k < init.len() && !keep(init[k]) && 0 <= j < init[k].pins@.len() implies #[trigger] init[k].pins@[j].id
            != id by {
            assert(init[k] == nodes[k]);
        }
        lemma_pin_kind_filter(init, keep, id);
        assert(nodes =~= init.push(last));
        lemma_all_pins_push(init, last);
        lemma_first_pin_concat(all_pins(init), last.pins@, id);
        if keep(last) {
            lemma_all_pins_push(init.filter(keep), last);
            lemma_first_pin_concat(all_pins(init.filter(keep)), last.pins@, id);
        } else {
            assert forall|j: int| 0 <= j < last.pins@.len() implies last.pins@[j].id != id by {
                assert(nodes[nodes.len() - 1] == last);
                assert(nodes[nodes.len() - 1].pins@[j].id != id);
            }
            lemma_first_pin_none(last.pins@, id);
        }
    }
}

// ---------------------------------------------------------------------------
// Lemmas on filtered link sequences.
// ---------------------------------------------------------------------------

/// Filtering the first `i + 1` elements adds element `i` if it is kept.
pub proof fn lemma_filter_take_succ<A>(s: Seq<A>, keep: spec_fn(A) -> bool, i: int)
    requires
        0 <= i < s.len(),
    ensures
        s.take(i + 1).filter(keep) == if keep(s[i]) {
            s.take(i).filter(keep).push(s[i])
        } else {
            s.take(i).filter(keep)
        },
{
    assert(s.take(i + 1) =~= s.take(i).push(s[i]));
    s.take(i).lemma_filter_push(s[i], keep);
}

/// A relation that holds between every element of `s` and every later one
/// still holds so in any filtered sequence.
pub proof fn lemma_filter_pairwise<A>(s: Seq<A>, keep: spec_fn(A) -> bool, rel: spec_fn(A, A) -> bool)
    requires
        forall|i: int, j: int| 0 <= i < j < s.len() ==> rel(#[trigger] s[i], #[trigger] s[j]),
    ensures
        forall|i: int, j: int|
            0 <= i < j < s.filter(keep).len() ==> rel(
                #[trigger] s.filter(keep)[i],
                #[trigger] s.filter(keep)[j],
            ),
    decreases s.len(),
{
    reveal(Seq::filter);
    if s.len() > 0 {
        let init = s.drop_last();
        let last = s.last();
        assert forall|i: int, j: int| 0 <= i < j < init.len() implies rel(
            #[trigger] init[i],
            #[trigger] init[j],
        ) by {
            assert(init[i] == s[i] && init[j] == s[j]);
        }
        lemma_filter_pairwise(init, keep, rel);
        let f = init.filter(keep);
        if keep(last) {
            let g = f.push(last);
            assert(s.filter(keep) == g);
            assert forall|i: int, j: int| 0 <= i < j < g.len() implies rel(
                #[trigger] g[i],
                #[trigger] g[j],
            ) by {
                if j == f.len() {
                    assert(f.contains(f[i]));
                    init.lemma_filter_contains_rev(keep, f[i]);
                    let k = choose|k: int| 0 <= k < init.len() && init[k] == f[i];
                    assert(s[k] == init[k]);
                    assert(s[s.len() - 1] == last);
                    assert(rel(s[k], s[s.len() - 1]));
                } else {
                    assert(g[i] == f[i] && g[j] == f[j]);
                }
            }
        }
    }
}

/// Dropping links keeps the links pairwise distinct.
pub proof fn lemma_filter_keeps_distinct(links: Seq<Link>, keep: spec_fn(Link) -> bool)
    requires
        connections_distinct(links),
    ensures
        connections_distinct(links.filter(keep)),
{
    let rel = |x: Link, y: Link| !(x.from == y.from && x.to == y.to);
    assert forall|i: int, j: int| 0 <= i < j < links.len() implies rel(
        #[trigger] links[i],
        #[trigger] links[j],
    ) by {}
    lemma_filter_pairwise(links, keep, rel);
    let f = links.filter(keep);
    assert forall|i: int, j: int| 0 <= i < j < f.len() implies !(#[trigger] f[i].from
        == #[trigger] f[j].from && f[i].to == f[j].to) by {
        assert(rel(f[i], f[j]));
    }
}

// ---------------------------------------------------------------------------
// Unique ids.
// ---------------------------------------------------------------------------

/// No two nodes of `nodes` share an id.
pub open spec fn node_ids_distinct(nodes: Seq<Node>) -> bool {
    forall|a: int, b: int| 0 <= a < b < nodes.len() ==> #[trigger] nodes[a].id != #[trigger] nodes[b].id
}

/// No two pins of `n` share an id.
pub open spec fn pins_distinct_within(n: Node) -> bool {
    forall|j: int, k: int|
        0 <= j < k < n.pins@.len() ==> #[trigger] n.pins@[j].id != #[trigger] n.pins@[k].id
}

/// No pin of `x` shares an id with a pin of `y`.
pub open spec fn pins_disjoint(x: Node, y: Node) -> bool {
    forall|j: int, k: int|
        0 <= j < x.pins@.len() && 0 <= k < y.pins@.len() ==> #[trigger] x.pins@[j].id
            != #[trigger] y.pins@[k].id
}

/// No two pins of `nodes`, on the same node or on different ones, share an id.
pub open spec fn pin_ids_distinct(nodes: Seq<Node>) -> bool {
    &&& forall|a: int| 0 <= a < nodes.len() ==> pins_distinct_within(#[trigger] nodes[a])
    &&& forall|a: int, b: int|
        0 <= a < b < nodes.len() ==> pins_disjoint(#[trigger] nodes[a], #[trigger] nodes[b])
}

/// Every node id of `nodes` is below `bound`.
pub open spec fn node_ids_below(nodes: Seq<Node>, bound: int) -> bool {
    forall|a: int| 0 <= a < nodes.len() ==> (#[trigger] nodes[a]).id.0 < bound
}

/// Every pin id of `nodes` is below `bound`.
pub open spec fn pin_ids_below(nodes: Seq<Node>, bound: int) -> bool {
    forall|a: int, j: int|
        0 <= a < nodes.len() && 0 <= j < nodes[a].pins@.len() ==> (#[trigger] nodes[a].pins@[j]).id.0
            < bound
}

/// No two links of `links` share an id.
pub open spec fn link_ids_distinct(links: Seq<Link>) -> bool {
    forall|i: int, j: int| 0 <= i < j < links.len() ==> #[trigger] links[i].id != #[trigger] links[j].id
}

/// Every link id of `links` is below `bound`.
pub open spec fn link_ids_below(links: Seq<Link>, bound: int) -> bool {
    forall|i: int| 0 <= i < links.len() ==> (#[trigger] links[i]).id.0 < bound
}

/// Dropping nodes keeps node ids and pin ids distinct and below their bounds.
pub proof fn lemma_node_filter_keeps_ids(
    nodes: Seq<Node>,
    keep: spec_fn(Node) -> bool,
    node_bound: int,
    pin_bound: int,
)
    requires
        node_ids_distinct(nodes),
        pin_ids_distinct(nodes),
        node_ids_below(nodes, node_bound),
        pin_ids_below(nodes, pin_bound),
    ensures
        node_ids_distinct(nodes.filter(keep)),
        pin_ids_distinct(nodes.filter(keep)),
        node_ids_below(nodes.filter(keep), node_bound),
        pin_ids_below(nodes.filter(keep), pin_bound),
{
    let f = nodes.filter(keep);
    let ids = |x: Node, y: Node| x.id != y.id;
    assert forall|a: int, b: int| 0 <= a < b < nodes.len() implies ids(
        #[trigger] nodes[a],
        #[trigger] nodes[b],
    ) by {}
    lemma_filter_pairwise(nodes, keep, ids);
    assert forall|a: int, b: int| 0 <= a < b < f.len() implies #[trigger] f[a].id != #[trigger] f[b].id by {
        assert(ids(f[a], f[b]));
    }
    let disjoint = |x: Node, y: Node| pins_disjoint(x, y);
    assert forall|a: int, b: int| 0 <= a < b < nodes.len() implies disjoint(
        #[trigger] nodes[a],
        #[trigger] nodes[b],
    ) by {}
    lemma_filter_pairwise(nodes, keep, disjoint);
    assert forall|a: int, b: int| 0 <= a < b < f.len() implies pins_disjoint(
        #[trigger] f[a],
        #[trigger] f[b],
    ) by {
        assert(disjoint(f[a], f[b]));
    }
    assert forall|a: int| 0 <= a < f.len() implies pins_distinct_within(#[trigger] f[a]) && f[a].id.0
        < node_bound && (forall|j: int|
        0 <= j < f[a].pins@.len() ==> (#[trigger] f[a].pins@[j]).id.0 < pin_bound) by {
        assert(f.contains(f[a]));
        nodes.lemma_filter_contains_rev(keep, f[a]);
        let x = choose|x: int| 0 <= x < nodes.len() && nodes[x] == f[a];
        assert(pins_distinct_within(nodes[x]));
        assert forall|j: int| 0 <= j < f[a].pins@.len() implies (#[trigger] f[a].pins@[j]).id.0
            < pin_bound by {
            assert(nodes[x].pins@[j].id.0 < pin_bound);
        }
    }
}

/// Dropping links keeps link ids distinct and below their bound.
pub proof fn lemma_link_filter_keeps_ids(links: Seq<Link>, keep: spec_fn(Link) -> bool, bound: int)
    requires
        link_ids_distinct(links),
        link_ids_below(links, bound),
    ensures
        link_ids_distinct(links.filter(keep)),
        link_ids_below(links.filter(keep), bound),
{
    let f = links.filter(keep);
    let ids = |x: Link, y: Link| x.id != y.id;
    assert forall|i: int, j: int| 0 <= i < j < links.len() implies ids(
        #[trigger] links[i],
        #[trigger] links[j],
    ) by {}
    lemma_filter_pairwise(links, keep, ids);
    assert forall|i: int, j: int| 0 <= i < j < f.len() implies #[trigger] f[i].id != #[trigger] f[j].id by {
        assert(ids(f[i], f[j]));
    }
    assert forall|i: int| 0 <= i < f.len() implies (#[trigger] f[i]).id.0 < bound by {
        assert(f.contains(f[i]));
        links.lemma_filter_contains_rev(keep, f[i]);
    }
}

/// Every link of a filtered sequence is a link of the original.
pub proof fn lemma_filter_subset(links: Seq<Link>, keep: spec_fn(Link) -> bool, l: Link)
    requires
        links.filter(keep).contains(l),
    ensures
        links.contains(l),
        keep(l),
{
    let f = links.filter(keep);
    let i = choose|i: int| 0 <= i < f.len() && f[i] == l;
    links.lemma_filter_contains_rev(keep, l);
    links.lemma_filter_pred(keep, i);
}

/// Removing a link by id undoes adding it: when no link carried the id of
/// `l`, dropping the links with that id from `links` followed by `l` gives
/// back `links`.
pub proof fn law_remove_link_undoes_add_link(links: Seq<Link>, l: Link)
    requires
        forall|i: int| 0 <= i < links.len() ==> (#[trigger] links[i]).id != l.id,
    ensures
        links_without_id(links.push(l), l.id) == links,
    decreases links.len(),
{
    let keep = |x: Link| x.id != l.id;
    links.lemma_filter_push(l, keep);
    lemma_filter_keeps_all(links, keep);
}

/// A filter that keeps every element is the identity.
pub proof fn lemma_filter_keeps_all<A>(s: Seq<A>, keep: spec_fn(A) -> bool)
    requires
        forall|i: int| 0 <= i < s.len() ==> keep(#[trigger] s[i]),
    ensures
        s.filter(keep) == s,
    decreases s.len(),
{
    reveal(Seq::filter);
    if s.len() > 0 {
        let init = s.drop_last();
        assert forall|i: int| 0 <= i < init.len() implies keep(#[trigger] init[i]) by {
            assert(init[i] == s[i]);
        }
        lemma_filter_keeps_all(init, keep);
        assert(keep(s[s.len() - 1]));
        assert(s =~= init.push(s.last()));
    }
}

} // verus!
