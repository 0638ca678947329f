use vstd::prelude::*;

use super::model::{Link, LinkId, Node, NodeId, Pin, PinId, PinKind};
use super::spec::{
    all_pins, can_link, lemma_first_pin_at, lemma_first_pin_none, links_off_node, links_off_pin,
    links_without_id, nodes_without_id, on_node, pin_kind, first_pin,
};

verus! {

/// An element is in a filtered sequence exactly when it is in the sequence
/// and the filter keeps it.
pub proof fn lemma_filter_membership<A>(s: Seq<A>, keep: spec_fn(A) -> bool, x: A)
    ensures
        s.filter(keep).contains(x) <==> (s.contains(x) && keep(x)),
{
    if s.filter(keep).contains(x) {
        s.lemma_filter_contains_rev(keep, x);
        let i = choose|i: int| 0 <= i < s.filter(keep).len() && s.filter(keep)[i] == x;
        s.lemma_filter_pred(keep, i);
    }
    if s.contains(x) && keep(x) {
        let i = choose|i: int| 0 <= i < s.len() && s[i] == x;
        s.lemma_filter_contains(keep, i);
    }
}

/// `remove_links_for_pin` keeps exactly the links that touch `pin` at
/// neither end: a link survives if and only if it was there and neither its
/// output end nor its input end is `pin`.
pub proof fn law_links_off_pin_drops_both_ends(links: Seq<Link>, pin: PinId, l: Link)
    ensures
        links_off_pin(links, pin).contains(l) <==> (links.contains(l) && l.from != pin && l.to
            != pin),
{
    lemma_filter_membership(links, |x: Link| x.from != pin && x.to != pin, l);
}

/// `remove_link` keeps exactly the links whose id differs from `id`.
pub proof fn law_links_without_id_drops_that_id(links: Seq<Link>, id: LinkId, l: Link)
    ensures
        links_without_id(links, id).contains(l) <==> (links.contains(l) && l.id != id),
{
    lemma_filter_membership(links, |x: Link| x.id != id, l);
}

/// `remove_node` keeps exactly the nodes whose id differs from `id`.
pub proof fn law_nodes_without_id_drops_that_id(nodes: Seq<Node>, id: NodeId, n: Node)
    ensures
        nodes_without_id(nodes, id).contains(n) <==> (nodes.contains(n) && n.id != id),
{
    lemma_filter_membership(nodes, |x: Node| x.id != id, n);
}

/// `remove_node` keeps exactly the links none of whose ends is a pin of a
/// node with id `id`.
pub proof fn law_links_off_node_drops_links_of_the_node(
    links: Seq<Link>,
    nodes: Seq<Node>,
    id: NodeId,
    l: Link,
)
    ensures
        links_off_node(links, nodes, id).contains(l) <==> (links.contains(l) && forall|a: int, j: int|
            0 <= a < nodes.len() && nodes[a].id == id && 0 <= j < nodes[a].pins@.len() ==> (
            #[trigger] nodes[a].pins@[j]).id != l.from && nodes[a].pins@[j].id != l.to),
{
    lemma_filter_membership(
        links,
        |x: Link| !on_node(nodes, id, x.from) && !on_node(nodes, id, x.to),
        l,
    );
}

/// The kind of a pin is that of the pin at the least index, among all pins
/// node by node, that carries its id; there is none when no pin carries it.
pub proof fn law_pin_kind_is_first_match(nodes: Seq<Node>, id: PinId)
    ensures
        pin_kind(nodes, id) is None <==> forall|i: int|
            0 <= i < all_pins(nodes).len() ==> (#[trigger] all_pins(nodes)[i]).id != id,
        forall|i: int|
            0 <= i < all_pins(nodes).len() && (#[trigger] all_pins(nodes)[i]).id == id && (forall|
                k: int,
            | 0 <= k < i ==> all_pins(nodes)[k].id != id) ==> pin_kind(nodes, id) == Some(
                all_pins(nodes)[i].kind,
            ),
{
    let pins = all_pins(nodes);
    assert forall|i: int|
        0 <= i < pins.len() && (#[trigger] pins[i]).id == id && (forall|k: int|
            0 <= k < i ==> pins[k].id != id) implies pin_kind(nodes, id) == Some(pins[i].kind) by {
        lemma_first_pin_at(pins, id, i);
    }
    if forall|i: int| 0 <= i < pins.len() ==> (#[trigger] pins[i]).id != id {
        lemma_first_pin_none(pins, id);
    } else {
        let i = choose|i: int| 0 <= i < pins.len() && (#[trigger] pins[i]).id == id;
        lemma_first_match_exists(pins, id, i);
    }
}

/// If some pin carries `id`, there is a first such pin.
proof fn lemma_first_match_exists(pins: Seq<Pin>, id: PinId, i: int)
    requires
        0 <= i < pins.len(),
        pins[i].id == id,
    ensures
        first_pin(pins, id) is Some,
    decreases i,
{
    if exists|k: int| 0 <= k < i && (#[trigger] pins[k]).id == id {
        let k = choose|k: int| 0 <= k < i && (#[trigger] pins[k]).id == id;
        lemma_first_match_exists(pins, id, k);
    } else {
        lemma_first_pin_at(pins, id, i);
    }
}

/// `add_link` accepts a link exactly when its `from` pin is an output, its
/// `to` pin is an input, and no link joins that same output to that same
/// input — whatever other links start at `from` or end at `to`.
pub proof fn law_add_link_accepts_exactly_new_directed_pairs(
    nodes: Seq<Node>,
    links: Seq<Link>,
    link: Link,
)
    ensures
        can_link(nodes, links, link) <==> {
            &&& pin_kind(nodes, link.from) == Some(PinKind::Output)
            &&& pin_kind(nodes, link.to) == Some(PinKind::Input)
            &&& forall|i: int|
                0 <= i < links.len() ==> !(#[trigger] links[i].from == link.from && links[i].to
                    == link.to)
        },
{
}

} // verus!
