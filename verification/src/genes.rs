//! Genomes: typed node and link lists carrying historical markings.

use vstd::arithmetic::div_mod::lemma_fundamental_div_mod_converse;
use crate::fixed::{abs_diff, distance, ONE};
use vstd::prelude::*;

verus! {

/// The role of a node in a network.
#[derive(Clone, Copy, PartialEq, Eq, PartialOrd, Ord, Hash, Debug, Structural)]
pub enum NodeType {
    Input,
    Output,
    Hidden,
    Bias,
}

pub type NodeId = usize;

/// Largest magnitude of a link weight: eight, in millionths.
pub const WEIGHT_LIMIT: i64 = 8_000_000;

/// A node gene.
#[derive(Clone, Copy, PartialEq, Eq, Debug, Structural)]
pub struct Node {
    pub id: NodeId,
    pub node_type: NodeType,
}

/// A link gene. The weight is a fixed-point number in millionths.
#[derive(Clone, Copy, PartialEq, Eq, Debug, Structural)]
pub struct Link {
    pub from_id: NodeId,
    pub to_id: NodeId,
    pub enabled: bool,
    pub innovation: u64,
    pub weight: i64,
    pub is_recurrent: bool,
}

/// A genome: its nodes, and its links in increasing order of innovation.
#[derive(Clone, Debug)]
pub struct Genome {
    pub nodes: Vec<Node>,
    pub links: Vec<Link>,
}

/// Some node of `nodes` has the identity `id`.
pub open spec fn contains_node(nodes: Seq<Node>, id: NodeId) -> bool {
    exists|i: int| 0 <= i < nodes.len() && (#[trigger] nodes[i]).id == id
}

/// Some link of `links` leads from `from_id` to `to_id`.
pub open spec fn contains_link(links: Seq<Link>, from_id: NodeId, to_id: NodeId) -> bool {
    exists|i: int|
        0 <= i < links.len() && (#[trigger] links[i]).from_id == from_id && links[i].to_id == to_id
}

/// Some link of `links` carries the innovation number `innovation`.
pub open spec fn contains_innovation(links: Seq<Link>, innovation: u64) -> bool {
    exists|i: int| 0 <= i < links.len() && (#[trigger] links[i]).innovation == innovation
}

/// No two nodes share an identity.
pub open spec fn node_ids_unique(nodes: Seq<Node>) -> bool {
    forall|i: int, j: int|
        0 <= i < j < nodes.len() ==> (#[trigger] nodes[i]).id != (#[trigger] nodes[j]).id
}

/// Innovation numbers strictly increase along the link list.
pub open spec fn innovations_increasing(links: Seq<Link>) -> bool {
    forall|i: int, j: int|
        0 <= i < j < links.len() ==> (#[trigger] links[i]).innovation < (
        #[trigger] links[j]).innovation
}

/// No two links join the same ordered pair of nodes.
pub open spec fn link_pairs_unique(links: Seq<Link>) -> bool {
    forall|i: int, j: int|
        0 <= i < j < links.len() ==> !((#[trigger] links[i]).from_id == (#[trigger] links[j]).from_id
            && links[i].to_id == links[j].to_id)
}

/// Both endpoints of every link are nodes.
pub open spec fn endpoints_present(nodes: Seq<Node>, links: Seq<Link>) -> bool {
    forall|i: int|
        0 <= i < links.len() ==> contains_node(nodes, (#[trigger] links[i]).from_id)
            && contains_node(nodes, links[i].to_id)
}

/// A node of this kind may be the target of a link.
pub open spec fn receptive(kind: NodeType) -> bool {
    kind == NodeType::Hidden || kind == NodeType::Output
}

/// No link leads into an input or bias node.
pub open spec fn targets_receptive(nodes: Seq<Node>, links: Seq<Link>) -> bool {
    forall|i: int, k: int|
        0 <= i < links.len() && 0 <= k < nodes.len() && (#[trigger] nodes[k]).id == (
        #[trigger] links[i]).to_id ==> receptive(nodes[k].node_type)
}

/// Every weight lies between minus eight and eight.
pub open spec fn weights_bounded(links: Seq<Link>) -> bool {
    forall|i: int|
        0 <= i < links.len() ==> -WEIGHT_LIMIT <= (#[trigger] links[i]).weight <= WEIGHT_LIMIT
}

/// The first node at or after `start` with the identity `id`.
pub open spec fn find_node(nodes: Seq<Node>, id: NodeId, start: int) -> Option<Node>
    decreases nodes.len() - start,
{
    if start < 0 || start >= nodes.len() {
        None
    } else if nodes[start].id == id {
        Some(nodes[start])
    } else {
        find_node(nodes, id, start + 1)
    }
}

/// The first link at or after `start` that leads from `from_id` to `to_id`.
pub open spec fn find_link(links: Seq<Link>, from_id: NodeId, to_id: NodeId, start: int) -> Option<
    Link,
>
    decreases links.len() - start,
{
    if start < 0 || start >= links.len() {
        None
    } else if links[start].from_id == from_id && links[start].to_id == to_id {
        Some(links[start])
    } else {
        find_link(links, from_id, to_id, start + 1)
    }
}

/// The index of the first link at or after `start` whose innovation number
/// exceeds `innovation`, or the length of the list where there is none.
pub open spec fn first_later(links: Seq<Link>, innovation: u64, start: int) -> int
    decreases links.len() - start,
{
    if start < 0 || start >= links.len() {
        links.len() as int
    } else if links[start].innovation > innovation {
        start
    } else {
        first_later(links, innovation, start + 1)
    }
}

/// The first link at or after `start` with the innovation number
/// `innovation`.
pub open spec fn find_innovation(links: Seq<Link>, innovation: u64, start: int) -> Option<Link>
    decreases links.len() - start,
{
    if start < 0 || start >= links.len() {
        None
    } else if links[start].innovation == innovation {
        Some(links[start])
    } else {
        find_innovation(links, innovation, start + 1)
    }
}

/// A search for an innovation number finds a link just when one carries
/// the number; in an ordered list it finds the link that carries it.
pub proof fn lemma_find_innovation(links: Seq<Link>, innovation: u64, start: int)
    requires
        0 <= start,
    ensures
        find_innovation(links, innovation, start) is None <==> forall|k: int|
            start <= k < links.len() ==> (#[trigger] links[k]).innovation != innovation,
        find_innovation(links, innovation, start) matches Some(l) ==> l.innovation == innovation
            && exists|k: int| start <= k < links.len() && #[trigger] links[k] == l,
        forall|j: int|
            start <= j < links.len() && innovations_increasing(links) && (#[trigger] links[j]).innovation
                == innovation ==> find_innovation(links, innovation, start) == Some(links[j]),
    decreases links.len() - start,
{
    if start < links.len() && links[start].innovation != innovation {
        lemma_find_innovation(links, innovation, start + 1);
    }
    if start < links.len() && links[start].innovation == innovation {
        assert forall|j: int|
            start <= j < links.len() && innovations_increasing(links) && (#[trigger] links[j]).innovation
                == innovation implies find_innovation(links, innovation, start) == Some(
            links[j],
        ) by {
            if j > start {
                assert(links[start].innovation < links[j].innovation);
            }
        }
    }
}

/// The number of enabled links among the first `n`.
pub open spec fn enabled_count(links: Seq<Link>, n: int) -> int
    decreases n,
{
    if n <= 0 {
        0
    } else {
        enabled_count(links, n - 1) + if links[n - 1].enabled {
            1int
        } else {
            0int
        }
    }
}

/// The enabled links that leave `from_id`, in genome order.
pub open spec fn outgoing(links: Seq<Link>, from_id: NodeId) -> Seq<Link> {
    links.filter(|l: Link| l.enabled && l.from_id == from_id)
}

/// The enabled links that enter `to_id`, in genome order.
pub open spec fn incoming(links: Seq<Link>, to_id: NodeId) -> Seq<Link> {
    links.filter(|l: Link| l.enabled && l.to_id == to_id)
}

/// A search that finds nothing from `start` on means that no node at or
/// after `start` has the identity, and conversely.
pub proof fn lemma_find_node(nodes: Seq<Node>, id: NodeId, start: int)
    requires
        0 <= start,
    ensures
        find_node(nodes, id, start) is None <==> forall|k: int|
            start <= k < nodes.len() ==> (#[trigger] nodes[k]).id != id,
        find_node(nodes, id, start) matches Some(n) ==> n.id == id && exists|k: int|
            start <= k < nodes.len() && #[trigger] nodes[k] == n,
    decreases nodes.len() - start,
{
    if start < nodes.len() && nodes[start].id != id {
        lemma_find_node(nodes, id, start + 1);
    }
}

/// A search that finds nothing from `start` on means that no link at or
/// after `start` joins the pair, and conversely.
pub proof fn lemma_find_link(links: Seq<Link>, from_id: NodeId, to_id: NodeId, start: int)
    requires
        0 <= start,
    ensures
        find_link(links, from_id, to_id, start) is None <==> forall|k: int|
            start <= k < links.len() ==> !((#[trigger] links[k]).from_id == from_id
                && links[k].to_id == to_id),
        find_link(links, from_id, to_id, start) matches Some(l) ==> l.from_id == from_id
            && l.to_id == to_id && exists|k: int| start <= k < links.len() && #[trigger] links[k] == l,
    decreases links.len() - start,
{
    if start < links.len() && !(links[start].from_id == from_id && links[start].to_id == to_id) {
        lemma_find_link(links, from_id, to_id, start + 1);
    }
}

/// The insertion point lies within the list, everything before it is not
/// later than `innovation`, and the link at it, if any, is later.
pub proof fn lemma_first_later(links: Seq<Link>, innovation: u64, start: int)
    requires
        0 <= start <= links.len(),
    ensures
        start <= first_later(links, innovation, start) <= links.len(),
        forall|k: int|
            start <= k < first_later(links, innovation, start) ==> (#[trigger] links[k]).innovation
                <= innovation,
        first_later(links, innovation, start) < links.len() ==> links[first_later(
            links,
            innovation,
            start,
        )].innovation > innovation,
    decreases links.len() - start,
{
    if start < links.len() && links[start].innovation <= innovation {
        lemma_first_later(links, innovation, start + 1);
    }
}


/// The link list after `link` has been put at its place: before the first
/// link with a later innovation number, or at the end.
pub open spec fn with_link(links: Seq<Link>, link: Link) -> Seq<Link> {
    links.insert(first_later(links, link.innovation, 0), link)
}

/// Every node of `nodes` with the identity `id` may be the target of a link.
pub open spec fn receptive_node(nodes: Seq<Node>, id: NodeId) -> bool {
    forall|k: int| 0 <= k < nodes.len() && (#[trigger] nodes[k]).id == id ==> receptive(nodes[k].node_type)
}

/// The node with number `i` of an initial genome with `num_inputs` inputs.
pub open spec fn initial_node(num_inputs: int, i: int) -> Node {
    Node {
        id: i as usize,
        node_type: if i < num_inputs {
            NodeType::Input
        } else if i == num_inputs {
            NodeType::Bias
        } else {
            NodeType::Output
        },
    }
}

/// The number of links that enter each output of an initial genome.
pub open spec fn links_per_output(num_connected: int, bias_connected: bool) -> int {
    num_connected + if bias_connected {
        1int
    } else {
        0int
    }
}

/// The link with number `k` of an initial genome. Each output in turn gets
/// one link from each connected input, then one from the bias node.
pub open spec fn initial_link(
    num_inputs: int,
    num_connected: int,
    bias_connected: bool,
    k: int,
) -> Link {
    let per = links_per_output(num_connected, bias_connected);
    let output = k / per;
    let slot = k % per;
    Link {
        from_id: (if slot < num_connected {
            slot
        } else {
            num_inputs
        }) as usize,
        to_id: (num_inputs + 1 + output) as usize,
        enabled: true,
        innovation: k as u64,
        weight: 0,
        is_recurrent: false,
    }
}

/// Inserting a link with a new innovation number, between nodes that are
/// present and not yet joined, into a target that may receive links, with a
/// weight in range, keeps a genome's integrity.
pub proof fn lemma_with_link_keeps_integrity(nodes: Seq<Node>, links: Seq<Link>, link: Link)
    requires
        node_ids_unique(nodes),
        innovations_increasing(links),
        link_pairs_unique(links),
        endpoints_present(nodes, links),
        targets_receptive(nodes, links),
        weights_bounded(links),
        contains_node(nodes, link.from_id),
        contains_node(nodes, link.to_id),
        !contains_link(links, link.from_id, link.to_id),
        !contains_innovation(links, link.innovation),
        receptive_node(nodes, link.to_id),
        -WEIGHT_LIMIT <= link.weight <= WEIGHT_LIMIT,
    ensures
        innovations_increasing(with_link(links, link)),
        link_pairs_unique(with_link(links, link)),
        endpoints_present(nodes, with_link(links, link)),
        targets_receptive(nodes, with_link(links, link)),
        weights_bounded(with_link(links, link)),
{
    let p = first_later(links, link.innovation, 0);
    lemma_first_later(links, link.innovation, 0);
    let after = with_link(links, link);
    assert forall|i: int, j: int| 0 <= i < j < after.len() implies (#[trigger] after[i]).innovation
        < (#[trigger] after[j]).innovation by {
        if i < p && j > p {
            assert(links[i].innovation < links[j - 1].innovation);
        }
        if j == p {
            assert(links[i].innovation <= link.innovation);
            assert(links[i].innovation != link.innovation);
        }
        if i == p {
            assert(links[j - 1].innovation >= links[p].innovation);
        }
    }
    assert forall|i: int, j: int| 0 <= i < j < after.len() implies !((#[trigger] after[i]).from_id
        == (#[trigger] after[j]).from_id && after[i].to_id == after[j].to_id) by {
        if i == p {
            assert(after[j] == links[j - 1]);
        } else if j == p {
            assert(after[i] == links[i]);
        } else {
            let a = if i < p { i } else { i - 1 };
            let b = if j < p { j } else { j - 1 };
            assert(after[i] == links[a]);
            assert(after[j] == links[b]);
        }
    }
    assert forall|i: int| 0 <= i < after.len() implies contains_node(
        nodes,
        (#[trigger] after[i]).from_id,
    ) && contains_node(nodes, after[i].to_id) by {
        if i != p {
            let a = if i < p { i } else { i - 1 };
            assert(after[i] == links[a]);
        }
    }
    assert forall|i: int, k: int|
        0 <= i < after.len() && 0 <= k < nodes.len() && (#[trigger] nodes[k]).id == (
        #[trigger] after[i]).to_id implies receptive(nodes[k].node_type) by {
        if i != p {
            let a = if i < p { i } else { i - 1 };
            assert(after[i] == links[a]);
        }
    }
    assert forall|i: int| 0 <= i < after.len() implies -WEIGHT_LIMIT <= (#[trigger] after[i]).weight
        <= WEIGHT_LIMIT by {
        if i != p {
            let a = if i < p { i } else { i - 1 };
            assert(after[i] == links[a]);
        }
    }
}

/// What a link list holds after an insertion: the links it held, and the
/// new one.
pub proof fn lemma_with_link_contents(links: Seq<Link>, link: Link)
    ensures
        with_link(links, link).len() == links.len() + 1,
        forall|x: u64|
            #[trigger] contains_innovation(with_link(links, link), x) <==> contains_innovation(
                links,
                x,
            ) || x == link.innovation,
        forall|f: NodeId, t: NodeId|
            #[trigger] contains_link(with_link(links, link), f, t) <==> contains_link(links, f, t)
                || (f == link.from_id && t == link.to_id),
{
    let p = first_later(links, link.innovation, 0);
    lemma_first_later(links, link.innovation, 0);
    let after = with_link(links, link);
    assert forall|x: u64| #[trigger]
        contains_innovation(after, x) <==> contains_innovation(links, x) || x
            == link.innovation by {
        if contains_innovation(after, x) {
            let k = choose|k: int| 0 <= k < after.len() && (#[trigger] after[k]).innovation == x;
            if k < p {
                assert(links[k].innovation == x);
            } else if k > p {
                assert(links[k - 1].innovation == x);
            }
        }
        if contains_innovation(links, x) {
            let k = choose|k: int| 0 <= k < links.len() && (#[trigger] links[k]).innovation == x;
            if k < p {
                assert(after[k].innovation == x);
            } else {
                assert(after[k + 1].innovation == x);
            }
        }
        if x == link.innovation {
            assert(after[p].innovation == x);
        }
    }
    assert forall|f: NodeId, t: NodeId| #[trigger]
        contains_link(after, f, t) <==> contains_link(links, f, t) || (f == link.from_id && t
            == link.to_id) by {
        if contains_link(after, f, t) {
            let k = choose|k: int|
                0 <= k < after.len() && (#[trigger] after[k]).from_id == f && after[k].to_id == t;
            if k < p {
                assert(links[k].from_id == f && links[k].to_id == t);
            } else if k > p {
                assert(links[k - 1].from_id == f && links[k - 1].to_id == t);
            }
        }
        if contains_link(links, f, t) {
            let k = choose|k: int|
                0 <= k < links.len() && (#[trigger] links[k]).from_id == f && links[k].to_id == t;
            if k < p {
                assert(after[k].from_id == f && after[k].to_id == t);
            } else {
                assert(after[k + 1].from_id == f && after[k + 1].to_id == t);
            }
        }
        if f == link.from_id && t == link.to_id {
            assert(after[p].from_id == f && after[p].to_id == t);
        }
    }
}

/// A link whose innovation number exceeds all others goes to the end.
pub proof fn lemma_latest_goes_last(links: Seq<Link>, link: Link, start: int)
    requires
        0 <= start <= links.len(),
        forall|k: int| 0 <= k < links.len() ==> (#[trigger] links[k]).innovation < link.innovation,
    ensures
        first_later(links, link.innovation, start) == links.len(),
    decreases links.len() - start,
{
    if start < links.len() {
        lemma_latest_goes_last(links, link, start + 1);
    }
}

/// Links whose neighbours are in order are in order throughout.
pub proof fn lemma_neighbours_in_order(links: Seq<Link>, i: int, j: int)
    requires
        forall|k: int|
            0 <= k < links.len() - 1 ==> (#[trigger] links[k]).innovation < links[k + 1].innovation,
        0 <= i < j < links.len(),
    ensures
        links[i].innovation < links[j].innovation,
    decreases j - i,
{
    if i + 1 < j {
        lemma_neighbours_in_order(links, i, j - 1);
    }
}


/// A link that is enabled and not marked recurrent.
pub open spec fn forward(link: Link) -> bool {
    link.enabled && !link.is_recurrent
}

/// An enabled link that is not marked recurrent leads from `a` to `b`.
pub open spec fn forward_step(links: Seq<Link>, a: NodeId, b: NodeId) -> bool {
    exists|i: int|
        0 <= i < links.len() && forward(#[trigger] links[i]) && links[i].from_id == a
            && links[i].to_id == b
}

/// Each node of `path` leads to the next by a forward step.
pub open spec fn is_forward_path(links: Seq<Link>, path: Seq<NodeId>) -> bool {
    path.len() > 0 && forall|k: int|
        0 <= k < path.len() - 1 ==> forward_step(links, #[trigger] path[k], path[k + 1])
}

/// `b` can be reached from `a` over enabled links that are not marked
/// recurrent; every node reaches itself.
pub open spec fn reaches(links: Seq<Link>, a: NodeId, b: NodeId) -> bool {
    exists|path: Seq<NodeId>|
        #[trigger] is_forward_path(links, path) && path[0] == a && path[path.len() - 1] == b
}

/// The number of entries of `flags` that are not set.
pub open spec fn unset_count(flags: Seq<bool>) -> nat
    decreases flags.len(),
{
    if flags.len() == 0 {
        0
    } else {
        unset_count(flags.drop_last()) + if flags.last() {
            0nat
        } else {
            1nat
        }
    }
}

/// The node with the identity `id` has been visited, waits in the queue, or
/// is the one at the index `current`.
pub open spec fn covered(
    nodes: Seq<Node>,
    visited: Seq<bool>,
    queue: Seq<usize>,
    current: int,
    id: NodeId,
) -> bool {
    exists|m: usize|
        m < nodes.len() && (#[trigger] nodes[m as int]).id == id && (visited[m as int]
            || queue.contains(m) || m == current)
}

/// Every forward step from a visited node leads to a covered node.
pub open spec fn closed_under_steps(
    nodes: Seq<Node>,
    links: Seq<Link>,
    visited: Seq<bool>,
    queue: Seq<usize>,
    current: int,
) -> bool {
    forall|k: int, i: int|
        0 <= k < nodes.len() && 0 <= i < links.len() && #[trigger] visited[k] && forward(
            #[trigger] links[i],
        ) && links[i].from_id == nodes[k].id ==> covered(
            nodes,
            visited,
            queue,
            current,
            links[i].to_id,
        )
}

/// Every node reaches itself.
pub proof fn lemma_reaches_itself(links: Seq<Link>, a: NodeId)
    ensures
        reaches(links, a, a),
{
    let path = seq![a];
    assert(is_forward_path(links, path));
    assert(path[0] == a && path[path.len() - 1] == a);
}

/// Reaching extends by one forward step.
pub proof fn lemma_reaches_further(links: Seq<Link>, a: NodeId, b: NodeId, c: NodeId)
    requires
        reaches(links, a, b),
        forward_step(links, b, c),
    ensures
        reaches(links, a, c),
{
    let path = choose|path: Seq<NodeId>|
        #[trigger] is_forward_path(links, path) && path[0] == a && path[path.len() - 1] == b;
    let longer = path.push(c);
    assert forall|k: int| 0 <= k < longer.len() - 1 implies forward_step(
        links,
        #[trigger] longer[k],
        longer[k + 1],
    ) by {
        if k < path.len() - 1 {
            assert(longer[k] == path[k]);
            assert(longer[k + 1] == path[k + 1]);
            assert(forward_step(links, path[k], path[k + 1]));
        }
    }
    assert(is_forward_path(links, longer));
    assert(longer[0] == a && longer[longer.len() - 1] == c);
}

/// Setting a flag that was not set lowers the count of unset flags.
pub proof fn lemma_unset_count_update(flags: Seq<bool>, k: int)
    requires
        0 <= k < flags.len(),
        !flags[k],
    ensures
        unset_count(flags.update(k, true)) < unset_count(flags),
    decreases flags.len(),
{
    let after = flags.update(k, true);
    if k == flags.len() - 1 {
        assert(after.drop_last() =~= flags.drop_last());
    } else {
        lemma_unset_count_update(flags.drop_last(), k);
        assert(after.drop_last() =~= flags.drop_last().update(k, true));
    }
}

/// Where the visited nodes are closed under forward steps and hold the
/// start of a path, they hold the whole path.
pub proof fn lemma_closed_holds_path(
    nodes: Seq<Node>,
    links: Seq<Link>,
    visited: Seq<bool>,
    path: Seq<NodeId>,
    p: int,
)
    requires
        closed_under_steps(nodes, links, visited, Seq::empty(), -1),
        is_forward_path(links, path),
        covered(nodes, visited, Seq::empty(), -1, path[0]),
        0 <= p < path.len(),
    ensures
        covered(nodes, visited, Seq::empty(), -1, path[p]),
    decreases p,
{
    if p > 0 {
        lemma_closed_holds_path(nodes, links, visited, path, p - 1);
        let m = choose|m: usize|
            m < nodes.len() && (#[trigger] nodes[m as int]).id == path[p - 1] && (visited[m as int]
                || Seq::<usize>::empty().contains(m) || m == -1);
        assert(visited[m as int]);
        assert(forward_step(links, path[p - 1], path[p - 1 + 1]));
        let i = choose|i: int|
            0 <= i < links.len() && forward(#[trigger] links[i]) && links[i].from_id == path[p - 1]
                && links[i].to_id == path[p];
        assert(visited[m as int] && forward(links[i]));
    }
}


/// Weights of the compatibility distance, as fixed-point numbers in
/// millionths.
#[derive(Clone, Copy, PartialEq, Eq, Debug, Structural)]
pub struct CompatCoefficients {
    pub disjoint: u32,
    pub excess: u32,
    pub weight_diff: u32,
}

/// The latest innovation number of an ordered link list, or -1 for an
/// empty one.
pub open spec fn last_innovation(links: Seq<Link>) -> int {
    if links.len() == 0 {
        -1
    } else {
        links.last().innovation as int
    }
}

/// The weight of the first link at or after `start` with the innovation
/// number `innovation`.
pub open spec fn weight_at(links: Seq<Link>, innovation: u64, start: int) -> int
    decreases links.len() - start,
{
    if start < 0 || start >= links.len() {
        0
    } else if links[start].innovation == innovation {
        links[start].weight as int
    } else {
        weight_at(links, innovation, start + 1)
    }
}

/// How many of the first `n` links of `a` have an innovation number that
/// occurs in `b`.
pub open spec fn matching_count(a: Seq<Link>, b: Seq<Link>, n: int) -> int
    decreases n,
{
    if n <= 0 {
        0
    } else {
        matching_count(a, b, n - 1) + if contains_innovation(b, a[n - 1].innovation) {
            1int
        } else {
            0int
        }
    }
}

/// How many of the first `n` links of `a` are later than every link of `b`.
pub open spec fn excess_count(a: Seq<Link>, b: Seq<Link>, n: int) -> int
    decreases n,
{
    if n <= 0 {
        0
    } else {
        excess_count(a, b, n - 1) + if a[n - 1].innovation > last_innovation(b) {
            1int
        } else {
            0int
        }
    }
}

/// How many of the first `n` links of `a` have an innovation number that
/// does not occur in `b` but is not later than all of `b`.
pub open spec fn disjoint_count(a: Seq<Link>, b: Seq<Link>, n: int) -> int
    decreases n,
{
    if n <= 0 {
        0
    } else {
        disjoint_count(a, b, n - 1) + if !contains_innovation(b, a[n - 1].innovation) && a[n
            - 1].innovation <= last_innovation(b) {
            1int
        } else {
            0int
        }
    }
}

/// The sum, over those of the first `n` links of `a` whose innovation number
/// occurs in `b`, of the absolute difference of the two weights.
pub open spec fn weight_gap(a: Seq<Link>, b: Seq<Link>, n: int) -> int
    decreases n,
{
    if n <= 0 {
        0
    } else {
        weight_gap(a, b, n - 1) + if contains_innovation(b, a[n - 1].innovation) {
            distance(a[n - 1].weight as int, weight_at(b, a[n - 1].innovation, 0))
        } else {
            0int
        }
    }
}

/// The compatibility distance of two ordered link lists: the disjoint links
/// and the excess links of both, each count weighted by its coefficient,
/// plus the weighted mean absolute weight difference of the matching links.
/// The mean is taken as zero where no links match. The result is a
/// fixed-point number in millionths.
pub open spec fn compatibility_of(c: CompatCoefficients, a: Seq<Link>, b: Seq<Link>) -> int {
    let matching = matching_count(a, b, a.len() as int);
    let disjoint = disjoint_count(a, b, a.len() as int) + disjoint_count(b, a, b.len() as int);
    let excess = excess_count(a, b, a.len() as int) + excess_count(b, a, b.len() as int);
    let mean = if matching > 0 {
        weight_gap(a, b, a.len() as int) / matching
    } else {
        0
    };
    c.disjoint * disjoint + c.excess * excess + (c.weight_diff * mean) / (ONE as int)
}

/// An innovation number that falls between two neighbours of an ordered
/// list, before its first link or after its last, does not occur in it.
pub proof fn lemma_innovation_absent(links: Seq<Link>, j: int, innovation: u64)
    requires
        innovations_increasing(links),
        0 <= j <= links.len(),
        forall|y: int| 0 <= y < j ==> (#[trigger] links[y]).innovation < innovation,
        j < links.len() ==> links[j].innovation > innovation,
    ensures
        !contains_innovation(links, innovation),
{
    assert forall|y: int| 0 <= y < links.len() implies (#[trigger] links[y]).innovation
        != innovation by {
        if y > j {
            assert(links[j].innovation < links[y].innovation);
        }
    }
}

/// In an ordered list the weight found for an innovation number is that of
/// the link which carries it.
pub proof fn lemma_weight_at(links: Seq<Link>, j: int, start: int)
    requires
        innovations_increasing(links),
        0 <= start <= j < links.len(),
    ensures
        weight_at(links, links[j].innovation, start) == links[j].weight,
    decreases j - start,
{
    if start < j {
        assert(links[start].innovation < links[j].innovation);
        lemma_weight_at(links, j, start + 1);
    }
}

/// The counts of matching, disjoint and excess links, and the summed
/// weight differences, are bounded by the number of links counted.
pub proof fn lemma_counts_bounded(a: Seq<Link>, b: Seq<Link>, n: int)
    requires
        0 <= n <= a.len(),
        weights_bounded(a),
        weights_bounded(b),
    ensures
        0 <= matching_count(a, b, n) <= n,
        0 <= excess_count(a, b, n) <= n,
        0 <= disjoint_count(a, b, n) <= n,
        0 <= weight_gap(a, b, n) <= 2 * WEIGHT_LIMIT * matching_count(a, b, n),
    decreases n,
{
    if n > 0 {
        lemma_counts_bounded(a, b, n - 1);
        if contains_innovation(b, a[n - 1].innovation) {
            lemma_weight_at_bounded(b, a[n - 1].innovation, 0);
        }
    }
}

/// A weight found in a list with bounded weights is bounded.
pub proof fn lemma_weight_at_bounded(links: Seq<Link>, innovation: u64, start: int)
    requires
        weights_bounded(links),
        0 <= start,
    ensures
        -WEIGHT_LIMIT <= weight_at(links, innovation, start) <= WEIGHT_LIMIT,
    decreases links.len() - start,
{
    if start < links.len() {
        if links[start].innovation != innovation {
            lemma_weight_at_bounded(links, innovation, start + 1);
        }
    }
}

/// The compatibility distance is never negative.
pub proof fn lemma_compatibility_not_negative(c: CompatCoefficients, a: Seq<Link>, b: Seq<Link>)
    requires
        weights_bounded(a),
        weights_bounded(b),
    ensures
        compatibility_of(c, a, b) >= 0,
{
    lemma_counts_bounded(a, b, a.len() as int);
    lemma_counts_bounded(b, a, b.len() as int);
    let matching = matching_count(a, b, a.len() as int);
    let disjoint = disjoint_count(a, b, a.len() as int) + disjoint_count(b, a, b.len() as int);
    let excess = excess_count(a, b, a.len() as int) + excess_count(b, a, b.len() as int);
    let gap = weight_gap(a, b, a.len() as int);
    let mean = if matching > 0 {
        gap / matching
    } else {
        0
    };
    if matching > 0 {
        assert(gap / matching >= 0) by (nonlinear_arith)
            requires
                gap >= 0,
                matching > 0,
        ;
    }
    assert(c.disjoint * disjoint >= 0) by (nonlinear_arith)
        requires
            c.disjoint >= 0,
            disjoint >= 0,
    ;
    assert(c.excess * excess >= 0) by (nonlinear_arith)
        requires
            c.excess >= 0,
            excess >= 0,
    ;
    assert((c.weight_diff * mean) / (ONE as int) >= 0) by (nonlinear_arith)
        requires
            c.weight_diff >= 0,
            mean >= 0,
            ONE == 1_000_000,
    ;
}

/// Counting a list against itself: every link matches with no weight
/// difference, none is disjoint and none is excess.
pub proof fn lemma_counts_against_itself(a: Seq<Link>, n: int)
    requires
        innovations_increasing(a),
        0 <= n <= a.len(),
    ensures
        matching_count(a, a, n) == n,
        excess_count(a, a, n) == 0,
        disjoint_count(a, a, n) == 0,
        weight_gap(a, a, n) == 0,
    decreases n,
{
    if n > 0 {
        lemma_counts_against_itself(a, n - 1);
        assert(a[n - 1].innovation == a[n - 1].innovation);
        assert(contains_innovation(a, a[n - 1].innovation));
        if n < a.len() {
            assert(a[n - 1].innovation < a[a.len() - 1].innovation);
        }
        lemma_weight_at(a, n - 1, 0);
    }
}

/// The compatibility distance of an ordered link list from itself is zero.
pub proof fn lemma_compatibility_of_identical(c: CompatCoefficients, a: Seq<Link>)
    requires
        innovations_increasing(a),
    ensures
        compatibility_of(c, a, a) == 0,
{
    lemma_counts_against_itself(a, a.len() as int);
    let matching = a.len() as int;
    if matching > 0 {
        assert(0int / matching == 0) by (nonlinear_arith)
            requires
                matching > 0,
        ;
    }
    assert(c.disjoint * 0 == 0);
    assert(c.excess * 0 == 0);
    assert(c.weight_diff * 0 == 0);
}

/// The compatibility distance of two genomes, found in one pass over their
/// ordered link lists.
pub fn compatibility(c: &CompatCoefficients, genome_a: &Genome, genome_b: &Genome) -> (d: u128)
    requires
        innovations_increasing(genome_a.links@),
        innovations_increasing(genome_b.links@),
        weights_bounded(genome_a.links@),
        weights_bounded(genome_b.links@),
    ensures
        d == compatibility_of(*c, genome_a.links@, genome_b.links@),
{
    let ghost a = genome_a.links@;
    let ghost b = genome_b.links@;
    let mut i: usize = 0;
    let mut j: usize = 0;
    let mut num_disjoint: u128 = 0;
    let mut num_excess: u128 = 0;
    let mut num_matching: u128 = 0;
    let mut weight_diff: u128 = 0;
    while i < genome_a.links.len() || j < genome_b.links.len()
        invariant
            a == genome_a.links@,
            b == genome_b.links@,
            innovations_increasing(a),
            innovations_increasing(b),
            weights_bounded(a),
            weights_bounded(b),
            i <= a.len(),
            j <= b.len(),
            j < b.len() ==> forall|x: int| 0 <= x < i ==> (#[trigger] a[x]).innovation < b[j as int].innovation,
            i < a.len() ==> forall|y: int| 0 <= y < j ==> (#[trigger] b[y]).innovation < a[i as int].innovation,
            num_matching == matching_count(a, b, i as int),
            num_disjoint == disjoint_count(a, b, i as int) + disjoint_count(b, a, j as int),
            num_excess == excess_count(a, b, i as int) + excess_count(b, a, j as int),
            weight_diff == weight_gap(a, b, i as int),
        decreases (a.len() - i) + (b.len() - j),
    {
        proof {
            lemma_counts_bounded(a, b, i as int);
            lemma_counts_bounded(b, a, j as int);
        }
        if i == genome_a.links.len() {
            proof {
                if a.len() > 0 {
                    assert(a[a.len() - 1].innovation < b[j as int].innovation);
                }
                lemma_innovation_absent(a, a.len() as int, b[j as int].innovation);
            }
            j += 1;
            num_excess += 1;
        } else if j == genome_b.links.len() {
            proof {
                if b.len() > 0 {
                    assert(b[b.len() - 1].innovation < a[i as int].innovation);
                }
                lemma_innovation_absent(b, b.len() as int, a[i as int].innovation);
            }
            i += 1;
            num_excess += 1;
        } else {
            let gene_a = &genome_a.links[i];
            let gene_b = &genome_b.links[j];
            if gene_a.innovation == gene_b.innovation {
                proof {
                    assert(contains_innovation(b, a[i as int].innovation));
                    assert(contains_innovation(a, b[j as int].innovation));
                    lemma_weight_at(b, j as int, 0);
                    assert(b[j as int].innovation <= a[a.len() - 1].innovation) by {
                        if i < a.len() - 1 {
                            assert(a[i as int].innovation < a[a.len() - 1].innovation);
                        }
                    }
                    assert(a[i as int].innovation <= b[b.len() - 1].innovation) by {
                        if j < b.len() - 1 {
                            assert(b[j as int].innovation < b[b.len() - 1].innovation);
                        }
                    }
                    assert forall|x: int| 0 <= x < i + 1 && j + 1 < b.len() implies (
                    #[trigger] a[x]).innovation < b[j + 1].innovation by {
                        assert(b[j as int].innovation < b[j + 1].innovation);
                    }
                    assert forall|y: int| 0 <= y < j + 1 && i + 1 < a.len() implies (
                    #[trigger] b[y]).innovation < a[i + 1].innovation by {
                        assert(a[i as int].innovation < a[i + 1].innovation);
                    }
                }
                weight_diff += abs_diff(gene_a.weight, gene_b.weight) as u128;
                num_matching += 1;
                i += 1;
                j += 1;
            } else if gene_a.innovation > gene_b.innovation {
                proof {
                    lemma_innovation_absent(a, i as int, b[j as int].innovation);
                    assert(b[j as int].innovation <= a[a.len() - 1].innovation) by {
                        if i < a.len() - 1 {
                            assert(a[i as int].innovation < a[a.len() - 1].innovation);
                        }
                    }
                    assert forall|x: int| 0 <= x < i && j + 1 < b.len() implies (
                    #[trigger] a[x]).innovation < b[j + 1].innovation by {
                        assert(b[j as int].innovation < b[j + 1].innovation);
                    }
                }
                num_disjoint += 1;
                j += 1;
            } else {
                proof {
                    lemma_innovation_absent(b, j as int, a[i as int].innovation);
                    assert(a[i as int].innovation <= b[b.len() - 1].innovation) by {
                        if j < b.len() - 1 {
                            assert(b[j as int].innovation < b[b.len() - 1].innovation);
                        }
                    }
                    assert forall|y: int| 0 <= y < j && i + 1 < a.len() implies (
                    #[trigger] b[y]).innovation < a[i + 1].innovation by {
                        assert(a[i as int].innovation < a[i + 1].innovation);
                    }
                }
                num_disjoint += 1;
                i += 1;
            }
        }
    }
    proof {
        lemma_counts_bounded(a, b, a.len() as int);
        lemma_counts_bounded(b, a, b.len() as int);
    }
    let mean: u128 = if num_matching > 0 {
        weight_diff / num_matching
    } else {
        0
    };
    proof {
        if num_matching > 0 {
            assert(weight_diff as int / num_matching as int <= 2 * WEIGHT_LIMIT) by (nonlinear_arith)
                requires
                    0 <= weight_diff <= 2 * WEIGHT_LIMIT * num_matching,
                    num_matching > 0,
            ;
        }
        assert(c.disjoint * num_disjoint <= 0xffff_ffff * 0x2_0000_0000_0000_0000) by (nonlinear_arith)
            requires
                0 <= c.disjoint <= 0xffff_ffff,
                0 <= num_disjoint <= 0x2_0000_0000_0000_0000,
        ;
        assert(c.excess * num_excess <= 0xffff_ffff * 0x2_0000_0000_0000_0000) by (nonlinear_arith)
            requires
                0 <= c.excess <= 0xffff_ffff,
                0 <= num_excess <= 0x2_0000_0000_0000_0000,
        ;
        assert(c.weight_diff * mean <= 0xffff_ffff * 16_000_000) by (nonlinear_arith)
            requires
                0 <= c.weight_diff <= 0xffff_ffff,
                0 <= mean <= 16_000_000,
        ;
    }
    c.disjoint as u128 * num_disjoint + c.excess as u128 * num_excess + (c.weight_diff as u128
        * mean) / (ONE as u128)
}

impl Genome {
    /// The genome's integrity: identities are unique, links are in strictly
    /// increasing order of innovation, join each ordered pair at most once,
    /// end at nodes of the genome, never enter an input or bias node, and
    /// carry weights between minus eight and eight.
    pub open spec fn wf(&self) -> bool {
        &&& node_ids_unique(self.nodes@)
        &&& innovations_increasing(self.links@)
        &&& link_pairs_unique(self.links@)
        &&& endpoints_present(self.nodes@, self.links@)
        &&& targets_receptive(self.nodes@, self.links@)
        &&& weights_bounded(self.links@)
    }

    /// The genome that evolution starts from. Its nodes are numbered in the
    /// order inputs, bias, outputs. Each output in turn gets a link from each
    /// of the first `num_connected` inputs and then, where `bias_connected`,
    /// one from the bias node. Innovation numbers count up from zero in the
    /// order of creation; all weights are zero.
    pub fn initial_genome(
        num_inputs: usize,
        num_outputs: usize,
        num_connected: usize,
        bias_connected: bool,
    ) -> (genome: Genome)
        requires
            num_connected <= num_inputs,
            num_inputs + 1 + num_outputs <= usize::MAX,
            num_outputs * links_per_output(num_connected as int, bias_connected) <= u64::MAX,
        ensures
            genome.nodes@ == Seq::new(
                (num_inputs + 1 + num_outputs) as nat,
                |i: int| initial_node(num_inputs as int, i),
            ),
            genome.links@ == Seq::new(
                (num_outputs * links_per_output(num_connected as int, bias_connected)) as nat,
                |k: int| initial_link(num_inputs as int, num_connected as int, bias_connected, k),
            ),
            genome.wf(),
    {
        let ghost per = links_per_output(num_connected as int, bias_connected);
        let mut genome = Genome { nodes: Vec::new(), links: Vec::new() };
        let mut node_counter: usize = 0;
        let mut innovation_counter: u64 = 0;
        while node_counter < num_inputs
            invariant
                node_counter <= num_inputs,
                genome.links@.len() == 0,
                genome.nodes@.len() == node_counter,
                forall|i: int|
                    0 <= i < node_counter ==> #[trigger] genome.nodes@[i] == initial_node(
                        num_inputs as int,
                        i,
                    ),
            decreases num_inputs - node_counter,
        {
            genome.nodes.push(Node { id: node_counter, node_type: NodeType::Input });
            node_counter += 1;
        }
        genome.nodes.push(Node { id: node_counter, node_type: NodeType::Bias });
        node_counter += 1;
        let mut output: usize = 0;
        while output < num_outputs
            invariant
                output <= num_outputs,
                num_connected <= num_inputs,
                num_inputs + 1 + num_outputs <= usize::MAX,
                num_outputs * per <= u64::MAX,
                per == links_per_output(num_connected as int, bias_connected),
                node_counter == num_inputs + 1 + output,
                innovation_counter == output * per,
                genome.nodes@.len() == node_counter,
                forall|i: int|
                    0 <= i < node_counter ==> #[trigger] genome.nodes@[i] == initial_node(
                        num_inputs as int,
                        i,
                    ),
                genome.links@.len() == innovation_counter,
                forall|k: int|
                    0 <= k < innovation_counter ==> #[trigger] genome.links@[k] == initial_link(
                        num_inputs as int,
                        num_connected as int,
                        bias_connected,
                        k,
                    ),
                forall|k: int|
                    0 <= k < innovation_counter ==> num_inputs < (#[trigger] genome.links@[k]).to_id
                        < node_counter,
                genome.wf(),
            decreases num_outputs - output,
        {
            assert((output + 1) * per <= num_outputs * per) by (nonlinear_arith)
                requires
                    output < num_outputs,
                    per >= 0,
            ;
            assert((output + 1) * per == output * per + per) by (nonlinear_arith);
            let ghost before = genome.nodes@;
            genome.nodes.push(Node { id: node_counter, node_type: NodeType::Output });
            proof {
                assert forall|i: int| 0 <= i < genome.links@.len() implies contains_node(
                    genome.nodes@,
                    (#[trigger] genome.links@[i]).from_id,
                ) && contains_node(genome.nodes@, genome.links@[i].to_id) by {
                    let a = choose|a: int|
                        0 <= a < before.len() && (#[trigger] before[a]).id
                            == genome.links@[i].from_id;
                    assert(genome.nodes@[a] == before[a]);
                    let b = choose|b: int|
                        0 <= b < before.len() && (#[trigger] before[b]).id == genome.links@[i].to_id;
                    assert(genome.nodes@[b] == before[b]);
                }
                assert(genome.wf());
            }
            let mut x: usize = 0;
            while x < num_connected
                invariant
                    x <= num_connected,
                    output < num_outputs,
                    num_connected <= num_inputs,
                    num_inputs + 1 + num_outputs <= usize::MAX,
                    (output + 1) * per <= u64::MAX,
                    (output + 1) * per == output * per + per,
                    per == links_per_output(num_connected as int, bias_connected),
                    node_counter == num_inputs + 1 + output,
                    innovation_counter == output * per + x,
                    genome.nodes@.len() == node_counter + 1,
                    forall|i: int|
                        0 <= i <= node_counter ==> #[trigger] genome.nodes@[i] == initial_node(
                            num_inputs as int,
                            i,
                        ),
                    genome.links@.len() == innovation_counter,
                    forall|k: int|
                        0 <= k < innovation_counter ==> #[trigger] genome.links@[k]
                            == initial_link(
                            num_inputs as int,
                            num_connected as int,
                            bias_connected,
                            k,
                        ),
                    forall|k: int|
                        0 <= k < innovation_counter ==> num_inputs < (
                        #[trigger] genome.links@[k]).to_id <= node_counter,
                    forall|k: int|
                        0 <= k < innovation_counter && (#[trigger] genome.links@[k]).to_id
                            == node_counter ==> genome.links@[k].from_id < x,
                    genome.wf(),
                decreases num_connected - x,
            {
                let link = Link {
                    from_id: x,
                    to_id: node_counter,
                    enabled: true,
                    innovation: innovation_counter,
                    weight: 0,
                    is_recurrent: false,
                };
                proof {
                    assert(genome.nodes@[x as int].id == x);
                    assert(genome.nodes@[node_counter as int].id == node_counter);
                    lemma_latest_goes_last(genome.links@, link, 0);
                    lemma_fundamental_div_mod_converse(
                        innovation_counter as int,
                        per,
                        output as int,
                        x as int,
                    );
                }
                genome.add_link(link);
                innovation_counter += 1;
                x += 1;
            }
            if bias_connected {
                let link = Link {
                    from_id: num_inputs,
                    to_id: node_counter,
                    enabled: true,
                    innovation: innovation_counter,
                    weight: 0,
                    is_recurrent: false,
                };
                proof {
                    assert(genome.nodes@[num_inputs as int].id == num_inputs);
                    assert(genome.nodes@[node_counter as int].id == node_counter);
                    lemma_latest_goes_last(genome.links@, link, 0);
                    lemma_fundamental_div_mod_converse(
                        innovation_counter as int,
                        per,
                        output as int,
                        num_connected as int,
                    );
                }
                genome.add_link(link);
                innovation_counter += 1;
            }
            node_counter += 1;
            output += 1;
        }
        assert(genome.nodes@ =~= Seq::new(
            (num_inputs + 1 + num_outputs) as nat,
            |i: int| initial_node(num_inputs as int, i),
        ));
        assert(genome.links@ =~= Seq::new(
            (num_outputs * per) as nat,
            |k: int| initial_link(num_inputs as int, num_connected as int, bias_connected, k),
        ));
        genome
    }

    /// The number of nodes.
    pub fn num_nodes(&self) -> (n: usize)
        ensures
            n == self.nodes@.len(),
    {
        self.nodes.len()
    }

    /// The number of enabled links.
    pub fn num_links(&self) -> (n: usize)
        ensures
            n == enabled_count(self.links@, self.links@.len() as int),
    {
        let mut n: usize = 0;
        let mut i: usize = 0;
        while i < self.links.len()
            invariant
                i <= self.links@.len(),
                n == enabled_count(self.links@, i as int),
                n <= i,
            decreases self.links@.len() - i,
        {
            if self.links[i].enabled {
                n += 1;
            }
            i += 1;
        }
        n
    }

    /// Whether a link leads from `from_id` to `to_id`.
    pub fn is_link(&self, from_id: NodeId, to_id: NodeId) -> (found: bool)
        ensures
            found == contains_link(self.links@, from_id, to_id),
    {
        let mut i: usize = 0;
        while i < self.links.len()
            invariant
                i <= self.links@.len(),
                forall|k: int|
                    0 <= k < i ==> !((#[trigger] self.links@[k]).from_id == from_id
                        && self.links@[k].to_id == to_id),
            decreases self.links@.len() - i,
        {
            if self.links[i].from_id == from_id && self.links[i].to_id == to_id {
                return true;
            }
            i += 1;
        }
        false
    }

    /// The first link that leads from `from_id` to `to_id`.
    pub fn get_link(&self, from_id: NodeId, to_id: NodeId) -> (found: Option<&Link>)
        ensures
            found is Some <==> contains_link(self.links@, from_id, to_id),
            match found {
                Some(l) => find_link(self.links@, from_id, to_id, 0) == Some(*l),
                None => find_link(self.links@, from_id, to_id, 0) is None,
            },
    {
        let mut i: usize = 0;
        while i < self.links.len()
            invariant
                i <= self.links@.len(),
                find_link(self.links@, from_id, to_id, 0) == find_link(
                    self.links@,
                    from_id,
                    to_id,
                    i as int,
                ),
                forall|k: int|
                    0 <= k < i ==> !((#[trigger] self.links@[k]).from_id == from_id
                        && self.links@[k].to_id == to_id),
            decreases self.links@.len() - i,
        {
            if self.links[i].from_id == from_id && self.links[i].to_id == to_id {
                return Some(&self.links[i]);
            }
            i += 1;
        }
        None
    }

    /// Whether a node has the identity `id`.
    pub fn is_node(&self, id: NodeId) -> (found: bool)
        ensures
            found == contains_node(self.nodes@, id),
    {
        let mut i: usize = 0;
        while i < self.nodes.len()
            invariant
                i <= self.nodes@.len(),
                forall|k: int| 0 <= k < i ==> (#[trigger] self.nodes@[k]).id != id,
            decreases self.nodes@.len() - i,
        {
            if self.nodes[i].id == id {
                return true;
            }
            i += 1;
        }
        false
    }

    /// The first node with the identity `id`.
    pub fn get_node(&self, id: NodeId) -> (found: Option<&Node>)
        ensures
            found is Some <==> contains_node(self.nodes@, id),
            match found {
                Some(n) => find_node(self.nodes@, id, 0) == Some(*n),
                None => find_node(self.nodes@, id, 0) is None,
            },
    {
        let mut i: usize = 0;
        while i < self.nodes.len()
            invariant
                i <= self.nodes@.len(),
                find_node(self.nodes@, id, 0) == find_node(self.nodes@, id, i as int),
                forall|k: int| 0 <= k < i ==> (#[trigger] self.nodes@[k]).id != id,
            decreases self.nodes@.len() - i,
        {
            if self.nodes[i].id == id {
                return Some(&self.nodes[i]);
            }
            i += 1;
        }
        None
    }

    /// The enabled links that leave `from_id`, in genome order.
    pub fn successor_links(&self, from_id: NodeId) -> (found: Vec<&Link>)
        requires
            contains_node(self.nodes@, from_id),
        ensures
            found@.len() == outgoing(self.links@, from_id).len(),
            forall|k: int| 0 <= k < found@.len() ==> *found@[k] == outgoing(self.links@, from_id)[k],
    {
        let mut found: Vec<&Link> = Vec::new();
        let mut i: usize = 0;
        let ghost pred = |l: Link| l.enabled && l.from_id == from_id;
        while i < self.links.len()
            invariant
                i <= self.links@.len(),
                pred == (|l: Link| l.enabled && l.from_id == from_id),
                found@.len() == self.links@.take(i as int).filter(pred).len(),
                forall|k: int|
                    0 <= k < found@.len() ==> *found@[k] == self.links@.take(i as int).filter(
                        pred,
                    )[k],
            decreases self.links@.len() - i,
        {
            proof {
                self.links@.lemma_take_succ_push(i as int);
                self.links@.take(i as int).lemma_filter_push(self.links@[i as int], pred);
            }
            if self.links[i].enabled && self.links[i].from_id == from_id {
                found.push(&self.links[i]);
            }
            i += 1;
        }
        assert(self.links@.take(i as int) == self.links@);
        found
    }

    /// The enabled links that enter `to_id`, in genome order.
    pub fn predecessor_links(&self, to_id: NodeId) -> (found: Vec<&Link>)
        requires
            contains_node(self.nodes@, to_id),
        ensures
            found@.len() == incoming(self.links@, to_id).len(),
            forall|k: int| 0 <= k < found@.len() ==> *found@[k] == incoming(self.links@, to_id)[k],
    {
        let mut found: Vec<&Link> = Vec::new();
        let mut i: usize = 0;
        let ghost pred = |l: Link| l.enabled && l.to_id == to_id;
        while i < self.links.len()
            invariant
                i <= self.links@.len(),
                pred == (|l: Link| l.enabled && l.to_id == to_id),
                found@.len() == self.links@.take(i as int).filter(pred).len(),
                forall|k: int|
                    0 <= k < found@.len() ==> *found@[k] == self.links@.take(i as int).filter(
                        pred,
                    )[k],
            decreases self.links@.len() - i,
        {
            proof {
                self.links@.lemma_take_succ_push(i as int);
                self.links@.take(i as int).lemma_filter_push(self.links@[i as int], pred);
            }
            if self.links[i].enabled && self.links[i].to_id == to_id {
                found.push(&self.links[i]);
            }
            i += 1;
        }
        assert(self.links@.take(i as int) == self.links@);
        found
    }

    /// A genome with the same nodes and links.
    pub fn duplicate(&self) -> (copy: Genome)
        ensures
            copy.nodes@ == self.nodes@,
            copy.links@ == self.links@,
    {
        let mut nodes: Vec<Node> = Vec::new();
        let mut i: usize = 0;
        while i < self.nodes.len()
            invariant
                i <= self.nodes@.len(),
                nodes@ == self.nodes@.take(i as int),
            decreases self.nodes@.len() - i,
        {
            proof {
                self.nodes@.lemma_take_succ_push(i as int);
            }
            nodes.push(self.nodes[i]);
            i += 1;
        }
        assert(self.nodes@.take(i as int) == self.nodes@);
        let mut links: Vec<Link> = Vec::new();
        let mut j: usize = 0;
        while j < self.links.len()
            invariant
                j <= self.links@.len(),
                links@ == self.links@.take(j as int),
            decreases self.links@.len() - j,
        {
            proof {
                self.links@.lemma_take_succ_push(j as int);
            }
            links.push(self.links[j]);
            j += 1;
        }
        assert(self.links@.take(j as int) == self.links@);
        Genome { nodes, links }
    }

    /// Adds a link, keeping the list in order of innovation: the link goes
    /// before the first link with a later innovation number.
    pub fn add_link(&mut self, new_link: Link)
        requires
            contains_node(old(self).nodes@, new_link.from_id),
            contains_node(old(self).nodes@, new_link.to_id),
            !contains_link(old(self).links@, new_link.from_id, new_link.to_id),
        ensures
            final(self).nodes@ == old(self).nodes@,
            final(self).links@ == with_link(old(self).links@, new_link),
            old(self).wf() && !contains_innovation(old(self).links@, new_link.innovation)
                && receptive_node(old(self).nodes@, new_link.to_id) && -WEIGHT_LIMIT
                <= new_link.weight <= WEIGHT_LIMIT ==> final(self).wf(),
    {
        let mut position: usize = 0;
        while position < self.links.len() && self.links[position].innovation <= new_link.innovation
            invariant
                *self == *old(self),
                position <= self.links@.len(),
                first_later(self.links@, new_link.innovation, 0) == first_later(
                    self.links@,
                    new_link.innovation,
                    position as int,
                ),
            decreases self.links@.len() - position,
        {
            position += 1;
        }
        proof {
            if old(self).wf() && !contains_innovation(old(self).links@, new_link.innovation)
                && receptive_node(old(self).nodes@, new_link.to_id) && -WEIGHT_LIMIT
                <= new_link.weight <= WEIGHT_LIMIT {
                lemma_with_link_keeps_integrity(old(self).nodes@, old(self).links@, new_link);
            }
        }
        self.links.insert(position, new_link);
    }

    /// Whether no two nodes share an identity.
    fn has_unique_node_ids(&self) -> (ok: bool)
        ensures
            ok == node_ids_unique(self.nodes@),
    {
        let mut j: usize = 0;
        while j < self.nodes.len()
            invariant
                j <= self.nodes@.len(),
                forall|a: int, b: int|
                    0 <= a < b < j ==> (#[trigger] self.nodes@[a]).id != (
                    #[trigger] self.nodes@[b]).id,
            decreases self.nodes@.len() - j,
        {
            let mut i: usize = 0;
            while i < j
                invariant
                    i <= j < self.nodes@.len(),
                    forall|a: int|
                        0 <= a < i ==> (#[trigger] self.nodes@[a]).id != self.nodes@[j as int].id,
                decreases j - i,
            {
                if self.nodes[i].id == self.nodes[j].id {
                    return false;
                }
                i += 1;
            }
            j += 1;
        }
        true
    }

    /// Whether no two links join the same ordered pair of nodes.
    fn has_unique_link_pairs(&self) -> (ok: bool)
        ensures
            ok == link_pairs_unique(self.links@),
    {
        let mut j: usize = 0;
        while j < self.links.len()
            invariant
                j <= self.links@.len(),
                forall|a: int, b: int|
                    0 <= a < b < j ==> !((#[trigger] self.links@[a]).from_id == (
                    #[trigger] self.links@[b]).from_id && self.links@[a].to_id
                        == self.links@[b].to_id),
            decreases self.links@.len() - j,
        {
            let mut i: usize = 0;
            while i < j
                invariant
                    i <= j < self.links@.len(),
                    forall|a: int|
                        0 <= a < i ==> !((#[trigger] self.links@[a]).from_id
                            == self.links@[j as int].from_id && self.links@[a].to_id
                            == self.links@[j as int].to_id),
                decreases j - i,
            {
                if self.links[i].from_id == self.links[j].from_id && self.links[i].to_id
                    == self.links[j].to_id {
                    return false;
                }
                i += 1;
            }
            j += 1;
        }
        true
    }

    /// Whether innovation numbers strictly increase along the link list.
    fn has_increasing_innovations(&self) -> (ok: bool)
        ensures
            ok == innovations_increasing(self.links@),
    {
        let mut i: usize = 1;
        while i < self.links.len()
            invariant
                1 <= i,
                forall|k: int|
                    0 <= k < i - 1 && k < self.links@.len() - 1 ==> (
                    #[trigger] self.links@[k]).innovation < self.links@[k + 1].innovation,
            decreases self.links@.len() - i,
        {
            if self.links[i - 1].innovation >= self.links[i].innovation {
                return false;
            }
            i += 1;
        }
        proof {
            assert forall|a: int, b: int| 0 <= a < b < self.links@.len() implies (
            #[trigger] self.links@[a]).innovation < (#[trigger] self.links@[b]).innovation by {
                lemma_neighbours_in_order(self.links@, a, b);
            }
        }
        true
    }

    /// Whether every link ends at nodes of the genome, enters no input or
    /// bias node, and carries a weight in range.
    fn has_sound_links(&self) -> (ok: bool)
        ensures
            ok == (endpoints_present(self.nodes@, self.links@) && targets_receptive(
                self.nodes@,
                self.links@,
            ) && weights_bounded(self.links@)),
    {
        let mut i: usize = 0;
        while i < self.links.len()
            invariant
                i <= self.links@.len(),
                forall|a: int|
                    0 <= a < i ==> contains_node(self.nodes@, (#[trigger] self.links@[a]).from_id)
                        && contains_node(self.nodes@, self.links@[a].to_id),
                forall|a: int, k: int|
                    0 <= a < i && 0 <= k < self.nodes@.len() && (#[trigger] self.nodes@[k]).id == (
                    #[trigger] self.links@[a]).to_id ==> receptive(self.nodes@[k].node_type),
                forall|a: int|
                    0 <= a < i ==> -WEIGHT_LIMIT <= (#[trigger] self.links@[a]).weight
                        <= WEIGHT_LIMIT,
            decreases self.links@.len() - i,
        {
            let link = self.links[i];
            if !self.is_node(link.from_id) || !self.is_node(link.to_id) {
                return false;
            }
            if link.weight < -WEIGHT_LIMIT || link.weight > WEIGHT_LIMIT {
                return false;
            }
            let mut k: usize = 0;
            while k < self.nodes.len()
                invariant
                    k <= self.nodes@.len(),
                    i < self.links@.len(),
                    link == self.links@[i as int],
                    forall|b: int|
                        0 <= b < k && (#[trigger] self.nodes@[b]).id == link.to_id ==> receptive(
                            self.nodes@[b].node_type,
                        ),
                decreases self.nodes@.len() - k,
            {
                if self.nodes[k].id == link.to_id {
                    match self.nodes[k].node_type {
                        NodeType::Input => {
                            return false;
                        },
                        NodeType::Bias => {
                            return false;
                        },
                        _ => {},
                    }
                }
                k += 1;
            }
            i += 1;
        }
        true
    }

    /// Whether the genome has its integrity: see [`Genome::wf`].
    pub fn assert_integrity(&self) -> (ok: bool)
        ensures
            ok == self.wf(),
    {
        self.has_unique_node_ids() && self.has_increasing_innovations()
            && self.has_unique_link_pairs() && self.has_sound_links()
    }

    /// The index of the first node with the identity `id`.
    fn position(&self, id: NodeId) -> (found: Option<usize>)
        ensures
            match found {
                Some(m) => m < self.nodes@.len() && self.nodes@[m as int].id == id,
                None => !contains_node(self.nodes@, id),
            },
    {
        let mut i: usize = 0;
        while i < self.nodes.len()
            invariant
                i <= self.nodes@.len(),
                forall|k: int| 0 <= k < i ==> (#[trigger] self.nodes@[k]).id != id,
            decreases self.nodes@.len() - i,
        {
            if self.nodes[i].id == id {
                return Some(i);
            }
            i += 1;
        }
        None
    }

    /// Whether a new link from `from_id` to `to_id` would close a cycle: a
    /// depth-first walk from `to_id` over the enabled links that are not
    /// marked recurrent looks for `from_id`.
    pub fn is_new_link_recurrent(&self, from_id: NodeId, to_id: NodeId) -> (recurrent: bool)
        requires
            contains_node(self.nodes@, to_id),
            endpoints_present(self.nodes@, self.links@),
        ensures
            recurrent == reaches(self.links@, to_id, from_id),
    {
        let mut visited: Vec<bool> = Vec::new();
        while visited.len() < self.nodes.len()
            invariant
                visited@.len() <= self.nodes@.len(),
                forall|k: int| 0 <= k < visited@.len() ==> !visited@[k],
            decreases self.nodes@.len() - visited@.len(),
        {
            visited.push(false);
        }
        let mut queue: Vec<usize> = Vec::new();
        match self.position(to_id) {
            Some(start) => {
                queue.push(start);
                assert(queue@[0] == start);
            },
            None => {},
        }
        proof {
            lemma_reaches_itself(self.links@, to_id);
        }
        while queue.len() > 0
            invariant
                visited@.len() == self.nodes@.len(),
                endpoints_present(self.nodes@, self.links@),
                forall|q: int|
                    0 <= q < queue@.len() ==> (#[trigger] queue@[q]) < self.nodes@.len() && reaches(
                        self.links@,
                        to_id,
                        self.nodes@[queue@[q] as int].id,
                    ),
                forall|k: int|
                    0 <= k < visited@.len() && #[trigger] visited@[k] ==> self.nodes@[k].id
                        != from_id,
                closed_under_steps(self.nodes@, self.links@, visited@, queue@, -1),
                covered(self.nodes@, visited@, queue@, -1, to_id),
            decreases unset_count(visited@), queue@.len(),
        {
            let ghost queue_before = queue@;
            let k = queue.pop().unwrap();
            let node_id = self.nodes[k].id;
            assert(forall|x: usize|
                queue_before.contains(x) ==> queue@.contains(x) || x == k) by {
                assert forall|x: usize| queue_before.contains(x) implies queue@.contains(x) || x
                    == k by {
                    let w = choose|w: int| 0 <= w < queue_before.len() && queue_before[w] == x;
                    if w < queue@.len() {
                        assert(queue@[w] == x);
                    }
                }
            }
            proof {
                assert forall|id: NodeId|
                    covered(self.nodes@, visited@, queue_before, -1, id) implies covered(
                    self.nodes@,
                    visited@,
                    queue@,
                    k as int,
                    id,
                ) by {
                    let m = choose|m: usize|
                        m < self.nodes@.len() && (#[trigger] self.nodes@[m as int]).id == id && (
                        visited@[m as int] || queue_before.contains(m) || m == -1);
                    assert(visited@[m as int] || queue@.contains(m) || m == k);
                }
            }
            if node_id == from_id {
                return true;
            }
            if !visited[k] {
                let mut i: usize = 0;
                while i < self.links.len()
                    invariant
                        i <= self.links@.len(),
                        k < self.nodes@.len(),
                        node_id == self.nodes@[k as int].id,
                        !visited@[k as int],
                        visited@.len() == self.nodes@.len(),
                        endpoints_present(self.nodes@, self.links@),
                        reaches(self.links@, to_id, node_id),
                        forall|q: int|
                            0 <= q < queue@.len() ==> (#[trigger] queue@[q]) < self.nodes@.len()
                                && reaches(self.links@, to_id, self.nodes@[queue@[q] as int].id),
                        closed_under_steps(self.nodes@, self.links@, visited@, queue@, k as int),
                        covered(self.nodes@, visited@, queue@, k as int, to_id),
                        forall|j: int|
                            0 <= j < i && forward(#[trigger] self.links@[j])
                                && self.links@[j].from_id == node_id ==> covered(
                                self.nodes@,
                                visited@,
                                queue@,
                                k as int,
                                self.links@[j].to_id,
                            ),
                    decreases self.links@.len() - i,
                {
                    let link = self.links[i];
                    let ghost queue_then = queue@;
                    if link.enabled && !link.is_recurrent && link.from_id == node_id {
                        match self.position(link.to_id) {
                            Some(m) => {
                                proof {
                                    assert(forward_step(self.links@, node_id, link.to_id));
                                    lemma_reaches_further(
                                        self.links@,
                                        to_id,
                                        node_id,
                                        link.to_id,
                                    );
                                }
                                if !visited[m] {
                                    queue.push(m);
                                    assert(queue@.contains(m)) by {
                                        assert(queue@[queue@.len() - 1] == m);
                                    }
                                }
                            },
                            None => {},
                        }
                    }
                    proof {
                        assert forall|x: usize| queue_then.contains(x) implies queue@.contains(
                            x,
                        ) by {
                            let w = choose|w: int| 0 <= w < queue_then.len() && queue_then[w] == x;
                            assert(queue@[w] == x);
                        }
                    }
                    i += 1;
                }
                proof {
                    lemma_unset_count_update(visited@, k as int);
                }
                let ghost visited_before = visited@;
                visited.set(k, true);
                proof {
                    assert forall|id: NodeId|
                        covered(
                            self.nodes@,
                            visited_before,
                            queue@,
                            k as int,
                            id,
                        ) implies covered(self.nodes@, visited@, queue@, -1, id) by {
                        let m = choose|m: usize|
                            m < self.nodes@.len() && (#[trigger] self.nodes@[m as int]).id == id
                                && (visited_before[m as int] || queue@.contains(m) || m == k);
                        assert(visited@[m as int] || queue@.contains(m));
                    }
                    assert forall|a: int, i: int|
                        0 <= a < self.nodes@.len() && 0 <= i < self.links@.len()
                            && #[trigger] visited@[a] && forward(#[trigger] self.links@[i])
                            && self.links@[i].from_id == self.nodes@[a].id implies covered(
                        self.nodes@,
                        visited@,
                        queue@,
                        -1,
                        self.links@[i].to_id,
                    ) by {
                        if a != k {
                            assert(visited_before[a]);
                        }
                    }
                }
            }
        }
        proof {
            assert(queue@ =~= Seq::<usize>::empty());
            if reaches(self.links@, to_id, from_id) {
                let path = choose|path: Seq<NodeId>|
                    #[trigger] is_forward_path(self.links@, path) && path[0] == to_id
                        && path[path.len() - 1] == from_id;
                lemma_closed_holds_path(
                    self.nodes@,
                    self.links@,
                    visited@,
                    path,
                    path.len() - 1,
                );
            }
        }
        false
    }
}

} // verus!
