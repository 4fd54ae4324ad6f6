//! Phenotype networks: built from a genome, activated step by step.

use crate::fixed::{add_saturating, multiply, product, saturate, ONE};
use crate::genes::{
    contains_node, endpoints_present, incoming, node_ids_unique, outgoing, Genome, Link, NodeId,
    NodeType,
};
use std::collections::HashMap;
use vstd::prelude::*;

verus! {

broadcast use vstd::std_specs::hash::group_hash_axioms;

/// The largest number of iterations of one activation.
pub const MAX_ITERATIONS: usize = 50;

/// A node of a network: its gene, the indices of the nodes that feed it with
/// the weights of those links, the indices of the nodes that it feeds, and
/// its state. Sums and activations are fixed-point numbers in millionths.
#[derive(Clone, Debug)]
pub struct Node {
    pub gene: crate::genes::Node,
    pub predecessor_indices: Vec<usize>,
    pub successor_indices: Vec<usize>,
    pub weights: Vec<i64>,
    pub active: bool,
    pub input_sum: i64,
    pub activation: i64,
}

/// What a node of a network holds.
pub struct NodeView {
    pub gene: crate::genes::Node,
    pub predecessor_indices: Seq<usize>,
    pub successor_indices: Seq<usize>,
    pub weights: Seq<i64>,
    pub active: bool,
    pub input_sum: i64,
    pub activation: i64,
}

impl View for Node {
    type V = NodeView;

    open spec fn view(&self) -> NodeView {
        NodeView {
            gene: self.gene,
            predecessor_indices: self.predecessor_indices@,
            successor_indices: self.successor_indices@,
            weights: self.weights@,
            active: self.active,
            input_sum: self.input_sum,
            activation: self.activation,
        }
    }
}

/// A network: its nodes, and for each node identity the node's index.
#[derive(Clone, Debug)]
pub struct Network {
    pub id_to_index: HashMap<NodeId, usize>,
    pub nodes: Vec<Node>,
}

impl View for Network {
    type V = Seq<NodeView>;

    open spec fn view(&self) -> Seq<NodeView> {
        Seq::new(self.nodes@.len(), |i: int| self.nodes@[i]@)
    }
}

/// An input or bias node: one that no link enters.
pub open spec fn is_source(kind: NodeType) -> bool {
    kind == NodeType::Input || kind == NodeType::Bias
}

/// Each node has one weight for each node that feeds it, all indices lie
/// within the network, and every bias node has the activation one.
pub open spec fn well_linked(net: Seq<NodeView>) -> bool {
    forall|i: int|
        0 <= i < net.len() ==> {
            &&& (#[trigger] net[i]).weights.len() == net[i].predecessor_indices.len()
            &&& forall|k: int|
                0 <= k < net[i].predecessor_indices.len() ==> (
                #[trigger] net[i].predecessor_indices[k]) < net.len()
            &&& forall|k: int|
                0 <= k < net[i].successor_indices.len() ==> (
                #[trigger] net[i].successor_indices[k]) < net.len()
            &&& net[i].gene.node_type == NodeType::Bias ==> net[i].activation == ONE
        }
}

/// The index of the first node at or after `start` with the identity `id`,
/// or the number of nodes where there is none.
pub open spec fn node_index(nodes: Seq<crate::genes::Node>, id: NodeId, start: int) -> int
    decreases nodes.len() - start,
{
    if start < 0 || start >= nodes.len() {
        nodes.len() as int
    } else if nodes[start].id == id {
        start
    } else {
        node_index(nodes, id, start + 1)
    }
}

/// Among nodes with unique identities each node is the first with its
/// identity.
pub proof fn lemma_node_index(nodes: Seq<crate::genes::Node>, i: int, start: int)
    requires
        node_ids_unique(nodes),
        0 <= start <= i < nodes.len(),
    ensures
        node_index(nodes, nodes[i].id, start) == i,
    decreases i - start,
{
    if start < i {
        assert(nodes[start].id != nodes[i].id);
        lemma_node_index(nodes, i, start + 1);
    }
}

/// The node that a network gets for the node with number `i` of a genome:
/// fed by the sources of the enabled links that enter it, feeding the
/// targets of the enabled links that leave it, inactive, with the activation
/// one for a bias node and zero for any other.
pub open spec fn built_node(nodes: Seq<crate::genes::Node>, links: Seq<Link>, i: int) -> NodeView {
    let id = nodes[i].id;
    NodeView {
        gene: nodes[i],
        predecessor_indices: incoming(links, id).map_values(
            |l: Link| node_index(nodes, l.from_id, 0) as usize,
        ),
        successor_indices: outgoing(links, id).map_values(
            |l: Link| node_index(nodes, l.to_id, 0) as usize,
        ),
        weights: incoming(links, id).map_values(|l: Link| l.weight),
        active: false,
        input_sum: 0,
        activation: if nodes[i].node_type == NodeType::Bias {
            ONE
        } else {
            0
        },
    }
}

/// The network of a genome: one node for each node of the genome, in order.
pub open spec fn built(nodes: Seq<crate::genes::Node>, links: Seq<Link>) -> Seq<NodeView> {
    Seq::new(nodes.len(), |i: int| built_node(nodes, links, i))
}

/// The network has the nodes and links of `model`, whatever its state.
pub open spec fn same_topology(net: Seq<NodeView>, model: Seq<NodeView>) -> bool {
    &&& net.len() == model.len()
    &&& forall|i: int|
        0 <= i < net.len() ==> (#[trigger] net[i]).gene == model[i].gene
            && net[i].predecessor_indices == model[i].predecessor_indices
            && net[i].successor_indices == model[i].successor_indices && net[i].weights
            == model[i].weights
}

/// The node at `p` passes its activation on: it is active, or a source.
pub open spec fn feeds(net: Seq<NodeView>, p: int) -> bool {
    net[p].active || is_source(net[p].gene.node_type)
}

/// Whether any of the first `n` nodes that feed the node `i` passes its
/// activation on.
pub open spec fn gathered_active(net: Seq<NodeView>, i: int, n: int) -> bool
    decreases n,
{
    if n <= 0 {
        false
    } else {
        gathered_active(net, i, n - 1) || feeds(net, net[i].predecessor_indices[n - 1] as int)
    }
}

/// The weighted sum of the activations that the first `n` nodes feeding the
/// node `i` pass on; products and sums saturate.
pub open spec fn gathered_sum(net: Seq<NodeView>, i: int, n: int) -> i64
    decreases n,
{
    if n <= 0 {
        0
    } else {
        let sum = gathered_sum(net, i, n - 1);
        let p = net[i].predecessor_indices[n - 1] as int;
        if feeds(net, p) {
            saturate(
                sum + saturate(product(net[i].weights[n - 1] as int, net[p].activation as int)),
            )
        } else {
            sum
        }
    }
}

/// The node `i` after it has gathered its input: a source stays as it is;
/// another node becomes active just when some node feeding it passes its
/// activation on, and its input sum is the weighted sum of what is passed on.
pub open spec fn gather_node(net: Seq<NodeView>, i: int) -> NodeView {
    let node = net[i];
    if is_source(node.gene.node_type) {
        node
    } else {
        NodeView {
            gene: node.gene,
            predecessor_indices: node.predecessor_indices,
            successor_indices: node.successor_indices,
            weights: node.weights,
            active: gathered_active(net, i, node.predecessor_indices.len() as int),
            input_sum: gathered_sum(net, i, node.predecessor_indices.len() as int),
            activation: node.activation,
        }
    }
}

/// The network after its first `n` nodes have gathered their input, one
/// after the other: a later node sees whether an earlier one has just
/// become active.
pub open spec fn gather(net: Seq<NodeView>, n: int) -> Seq<NodeView>
    decreases n,
{
    if n <= 0 {
        net
    } else {
        let before = gather(net, n - 1);
        before.update(n - 1, gather_node(before, n - 1))
    }
}

/// `after` is `before` with the activation of every active node that is not
/// a source replaced by what `squash` makes of the node's input sum.
pub open spec fn squashed<F: Fn(i64) -> i64>(
    before: Seq<NodeView>,
    after: Seq<NodeView>,
    squash: F,
) -> bool {
    &&& after.len() == before.len()
    &&& forall|i: int|
        0 <= i < before.len() ==> {
            let node = before[i];
            if !is_source(node.gene.node_type) && node.active {
                &&& call_ensures(squash, (node.input_sum,), (#[trigger] after[i]).activation)
                &&& after[i] == NodeView {
                    gene: node.gene,
                    predecessor_indices: node.predecessor_indices,
                    successor_indices: node.successor_indices,
                    weights: node.weights,
                    active: node.active,
                    input_sum: node.input_sum,
                    activation: after[i].activation,
                }
            } else {
                after[i] == node
            }
        }
}

/// One iteration leads from `before` to `after`: every node gathers its
/// input, then the active nodes take their new activations.
pub open spec fn stepped<F: Fn(i64) -> i64>(
    before: Seq<NodeView>,
    after: Seq<NodeView>,
    squash: F,
) -> bool {
    squashed(gather(before, before.len() as int), after, squash)
}

/// Every output node is active.
pub open spec fn outputs_active(net: Seq<NodeView>) -> bool {
    forall|i: int|
        0 <= i < net.len() && (#[trigger] net[i]).gene.node_type == NodeType::Output
            ==> net[i].active
}

/// `trace` holds the states of one activation: each comes from the one
/// before by one iteration, and of the states between the first and the
/// last none has all its output nodes active.
pub open spec fn is_activation<F: Fn(i64) -> i64>(trace: Seq<Seq<NodeView>>, squash: F) -> bool {
    &&& forall|k: int| 0 <= k < trace.len() - 1 ==> stepped(#[trigger] trace[k], trace[k + 1], squash)
    &&& forall|k: int| 0 < k < trace.len() - 1 ==> !outputs_active(#[trigger] trace[k])
}

/// `after` is what one activation makes of `before`: some activation of at
/// most fifty iterations leads from the one to the other, and has ended
/// before the fiftieth iteration only with every output node active.
pub open spec fn is_activated<F: Fn(i64) -> i64>(
    before: Seq<NodeView>,
    after: Seq<NodeView>,
    squash: F,
) -> bool {
    exists|trace: Seq<Seq<NodeView>>|
        2 <= trace.len() <= MAX_ITERATIONS + 1 && trace[0] == before && trace[trace.len() - 1]
            == after && #[trigger] is_activation(trace, squash) && (trace.len() - 1
            < MAX_ITERATIONS ==> outputs_active(after))
}

/// The network after the first `n` of the given activations have been
/// written to the nodes that `index` names; a later pair prevails.
pub open spec fn with_inputs(
    net: Seq<NodeView>,
    index: Map<NodeId, usize>,
    input: Seq<(NodeId, i64)>,
    n: int,
) -> Seq<NodeView>
    decreases n,
{
    if n <= 0 {
        net
    } else {
        let before = with_inputs(net, index, input, n - 1);
        let at = index[input[n - 1].0] as int;
        let node = before[at];
        before.update(
            at,
            NodeView {
                gene: node.gene,
                predecessor_indices: node.predecessor_indices,
                successor_indices: node.successor_indices,
                weights: node.weights,
                active: node.active,
                input_sum: node.input_sum,
                activation: input[n - 1].1,
            },
        )
    }
}

/// The node in its rest state: inactive, with the activation one for a bias
/// node and zero for any other.
pub open spec fn flushed_node(node: NodeView) -> NodeView {
    NodeView {
        gene: node.gene,
        predecessor_indices: node.predecessor_indices,
        successor_indices: node.successor_indices,
        weights: node.weights,
        active: false,
        input_sum: node.input_sum,
        activation: if node.gene.node_type == NodeType::Bias {
            ONE
        } else {
            0
        },
    }
}

/// Gathering changes neither the number of nodes nor, of any node, more
/// than whether it is active and its input sum.
pub proof fn lemma_gather_keeps_links(net: Seq<NodeView>, n: int)
    requires
        0 <= n <= net.len(),
    ensures
        gather(net, n).len() == net.len(),
        forall|i: int|
            0 <= i < net.len() ==> (#[trigger] gather(net, n)[i]).gene == net[i].gene && gather(
                net,
                n,
            )[i].predecessor_indices == net[i].predecessor_indices && gather(
                net,
                n,
            )[i].successor_indices == net[i].successor_indices && gather(net, n)[i].weights
                == net[i].weights && gather(net, n)[i].activation == net[i].activation,
        forall|i: int| n <= i < net.len() ==> #[trigger] gather(net, n)[i] == net[i],
        well_linked(net) ==> well_linked(gather(net, n)),
    decreases n,
{
    if n > 0 {
        lemma_gather_keeps_links(net, n - 1);
        let before = gather(net, n - 1);
        let after = gather(net, n);
        assert forall|i: int| 0 <= i < net.len() implies (#[trigger] after[i]).gene == net[i].gene
            && after[i].predecessor_indices == net[i].predecessor_indices
            && after[i].successor_indices == net[i].successor_indices && after[i].weights
            == net[i].weights && after[i].activation == net[i].activation by {
            assert(before[i].gene == net[i].gene);
        }
        if well_linked(net) {
            assert forall|i: int| 0 <= i < after.len() implies {
                &&& (#[trigger] after[i]).weights.len() == after[i].predecessor_indices.len()
                &&& forall|k: int|
                    0 <= k < after[i].predecessor_indices.len() ==> (
                    #[trigger] after[i].predecessor_indices[k]) < after.len()
                &&& forall|k: int|
                    0 <= k < after[i].successor_indices.len() ==> (
                    #[trigger] after[i].successor_indices[k]) < after.len()
                &&& after[i].gene.node_type == NodeType::Bias ==> after[i].activation == ONE
            } by {
                assert(before[i].weights.len() == before[i].predecessor_indices.len());
            }
        }
    }
}


/// The identities and activations of the output nodes among the first `n`
/// nodes, in node order.
pub open spec fn outputs_upto(net: Seq<NodeView>, n: int) -> Seq<(NodeId, i64)>
    decreases n,
{
    if n <= 0 {
        Seq::empty()
    } else if net[n - 1].gene.node_type == NodeType::Output {
        outputs_upto(net, n - 1).push((net[n - 1].gene.id, net[n - 1].activation))
    } else {
        outputs_upto(net, n - 1)
    }
}

/// The number of output nodes among the first `n` genes.
pub open spec fn output_count(genes: Seq<crate::genes::Node>, n: int) -> int
    decreases n,
{
    if n <= 0 {
        0
    } else {
        output_count(genes, n - 1) + if genes[n - 1].node_type == NodeType::Output {
            1int
        } else {
            0int
        }
    }
}

/// A network has one output for each of its output nodes.
pub proof fn lemma_output_count(net: Seq<NodeView>, n: int)
    requires
        0 <= n <= net.len(),
    ensures
        outputs_upto(net, n).len() == output_count(genes_of(net), n),
    decreases n,
{
    if n > 0 {
        lemma_output_count(net, n - 1);
    }
}

/// The number of input nodes among the first `n` nodes.
pub open spec fn inputs_upto(net: Seq<NodeView>, n: int) -> int
    decreases n,
{
    if n <= 0 {
        0
    } else {
        inputs_upto(net, n - 1) + if net[n - 1].gene.node_type == NodeType::Input {
            1int
        } else {
            0int
        }
    }
}

/// The map leads from the identity of each node to the node's index, and
/// holds nothing else.
pub open spec fn indexes(index: Map<NodeId, usize>, nodes: Seq<crate::genes::Node>) -> bool {
    &&& forall|i: int|
        0 <= i < nodes.len() ==> index.contains_key((#[trigger] nodes[i]).id) && index[nodes[i].id]
            == i
    &&& forall|id: NodeId| #[trigger]
        index.contains_key(id) ==> index[id] < nodes.len() && nodes[index[id] as int].id == id
}

/// The genes of a network's nodes.
pub open spec fn genes_of(net: Seq<NodeView>) -> Seq<crate::genes::Node> {
    Seq::new(net.len(), |i: int| net[i].gene)
}

/// The indices of the nodes at one end of each link: the sources where
/// `sources` is set, else the targets.
fn endpoint_indices(
    genome: &Genome,
    id_to_index: &HashMap<NodeId, usize>,
    links: &Vec<&Link>,
    sources: bool,
) -> (indices: Vec<usize>)
    requires
        node_ids_unique(genome.nodes@),
        indexes(id_to_index@, genome.nodes@),
        forall|k: int|
            0 <= k < links@.len() ==> contains_node(genome.nodes@, (#[trigger] links@[k]).from_id)
                && contains_node(genome.nodes@, links@[k].to_id),
    ensures
        indices@.len() == links@.len(),
        forall|k: int|
            0 <= k < links@.len() ==> (#[trigger] indices@[k]) < genome.nodes@.len() && indices@[k]
                == node_index(
                genome.nodes@,
                if sources {
                    links@[k].from_id
                } else {
                    links@[k].to_id
                },
                0,
            ),
{
    let mut indices: Vec<usize> = Vec::new();
    let mut k: usize = 0;
    while k < links.len()
        invariant
            k <= links@.len(),
            node_ids_unique(genome.nodes@),
            indexes(id_to_index@, genome.nodes@),
            forall|m: int|
                0 <= m < links@.len() ==> contains_node(
                    genome.nodes@,
                    (#[trigger] links@[m]).from_id,
                ) && contains_node(genome.nodes@, links@[m].to_id),
            indices@.len() == k,
            forall|m: int|
                0 <= m < k ==> (#[trigger] indices@[m]) < genome.nodes@.len() && indices@[m]
                    == node_index(
                    genome.nodes@,
                    if sources {
                        links@[m].from_id
                    } else {
                        links@[m].to_id
                    },
                    0,
                ),
        decreases links@.len() - k,
    {
        let id = if sources {
            links[k].from_id
        } else {
            links[k].to_id
        };
        proof {
            assert(contains_node(genome.nodes@, links@[k as int].from_id));
            let at = choose|at: int|
                0 <= at < genome.nodes@.len() && (#[trigger] genome.nodes@[at]).id == id;
            lemma_node_index(genome.nodes@, at, 0);
        }
        match id_to_index.get(&id) {
            Some(at) => {
                indices.push(*at);
            },
            None => {},
        }
        k += 1;
    }
    indices
}

/// The weights of the links.
fn link_weights(links: &Vec<&Link>) -> (weights: Vec<i64>)
    ensures
        weights@.len() == links@.len(),
        forall|k: int| 0 <= k < links@.len() ==> #[trigger] weights@[k] == links@[k].weight,
{
    let mut weights: Vec<i64> = Vec::new();
    let mut k: usize = 0;
    while k < links.len()
        invariant
            k <= links@.len(),
            weights@.len() == k,
            forall|m: int| 0 <= m < k ==> #[trigger] weights@[m] == links@[m].weight,
        decreases links@.len() - k,
    {
        weights.push(links[k].weight);
        k += 1;
    }
    weights
}

/// A copy of a list of indices.
fn copy_indices(indices: &Vec<usize>) -> (copy: Vec<usize>)
    ensures
        copy@ == indices@,
{
    let mut copy: Vec<usize> = Vec::new();
    let mut k: usize = 0;
    while k < indices.len()
        invariant
            k <= indices@.len(),
            copy@ == indices@.take(k as int),
        decreases indices@.len() - k,
    {
        proof {
            indices@.lemma_take_succ_push(k as int);
        }
        copy.push(indices[k]);
        k += 1;
    }
    assert(indices@.take(k as int) == indices@);
    copy
}

/// A copy of a list of weights.
fn copy_weights(weights: &Vec<i64>) -> (copy: Vec<i64>)
    ensures
        copy@ == weights@,
{
    let mut copy: Vec<i64> = Vec::new();
    let mut k: usize = 0;
    while k < weights.len()
        invariant
            k <= weights@.len(),
            copy@ == weights@.take(k as int),
        decreases weights@.len() - k,
    {
        proof {
            weights@.lemma_take_succ_push(k as int);
        }
        copy.push(weights[k]);
        k += 1;
    }
    assert(weights@.take(k as int) == weights@);
    copy
}

impl Network {
    /// The network is sound: the map leads from each node's identity to its
    /// index, and the nodes are well linked.
    pub open spec fn wf(&self) -> bool {
        &&& indexes(self.id_to_index@, genes_of(self@))
        &&& well_linked(self@)
    }

    /// Builds the network of a genome.
    pub fn from_genome(genome: &Genome) -> (network: Network)
        requires
            node_ids_unique(genome.nodes@),
            endpoints_present(genome.nodes@, genome.links@),
        ensures
            network@ == built(genome.nodes@, genome.links@),
            network.wf(),
    {
        let mut id_to_index: HashMap<NodeId, usize> = HashMap::new();
        let mut index: usize = 0;
        while index < genome.nodes.len()
            invariant
                index <= genome.nodes@.len(),
                node_ids_unique(genome.nodes@),
                forall|i: int|
                    0 <= i < index ==> id_to_index@.contains_key((#[trigger] genome.nodes@[i]).id)
                        && id_to_index@[genome.nodes@[i].id] == i,
                forall|id: NodeId| #[trigger]
                    id_to_index@.contains_key(id) ==> id_to_index@[id] < index
                        && genome.nodes@[id_to_index@[id] as int].id == id,
            decreases genome.nodes@.len() - index,
        {
            proof {
                assert forall|i: int| 0 <= i < index implies (#[trigger] genome.nodes@[i]).id
                    != genome.nodes@[index as int].id by {}
            }
            id_to_index.insert(genome.nodes[index].id, index);
            index += 1;
        }
        let mut nodes: Vec<Node> = Vec::new();
        let mut i: usize = 0;
        while i < genome.nodes.len()
            invariant
                i <= genome.nodes@.len(),
                node_ids_unique(genome.nodes@),
                endpoints_present(genome.nodes@, genome.links@),
                indexes(id_to_index@, genome.nodes@),
                nodes@.len() == i,
                forall|k: int|
                    0 <= k < i ==> (#[trigger] nodes@[k])@ == built_node(
                        genome.nodes@,
                        genome.links@,
                        k,
                    ),
                forall|k: int, m: int|
                    0 <= k < i && 0 <= m < nodes@[k].predecessor_indices@.len() ==> (
                    #[trigger] nodes@[k].predecessor_indices@[m]) < genome.nodes@.len(),
                forall|k: int, m: int|
                    0 <= k < i && 0 <= m < nodes@[k].successor_indices@.len() ==> (
                    #[trigger] nodes@[k].successor_indices@[m]) < genome.nodes@.len(),
            decreases genome.nodes@.len() - i,
        {
            let gene = genome.nodes[i];
            assert(contains_node(genome.nodes@, genome.nodes@[i as int].id));
            let preds = genome.predecessor_links(gene.id);
            let succs = genome.successor_links(gene.id);
            let ghost entering = incoming(genome.links@, gene.id);
            let ghost leaving = outgoing(genome.links@, gene.id);
            proof {
                assert forall|k: int| 0 <= k < preds@.len() implies contains_node(
                    genome.nodes@,
                    (#[trigger] preds@[k]).from_id,
                ) && contains_node(genome.nodes@, preds@[k].to_id) by {
                    assert(entering.contains(entering[k]));
                    genome.links@.lemma_filter_contains_rev(
                        |l: Link| l.enabled && l.to_id == gene.id,
                        entering[k],
                    );
                    let j = choose|j: int|
                        0 <= j < genome.links@.len() && genome.links@[j] == entering[k];
                    assert(contains_node(genome.nodes@, genome.links@[j].from_id));
                }
                assert forall|k: int| 0 <= k < succs@.len() implies contains_node(
                    genome.nodes@,
                    (#[trigger] succs@[k]).from_id,
                ) && contains_node(genome.nodes@, succs@[k].to_id) by {
                    assert(leaving.contains(leaving[k]));
                    genome.links@.lemma_filter_contains_rev(
                        |l: Link| l.enabled && l.from_id == gene.id,
                        leaving[k],
                    );
                    let j = choose|j: int|
                        0 <= j < genome.links@.len() && genome.links@[j] == leaving[k];
                    assert(contains_node(genome.nodes@, genome.links@[j].from_id));
                }
            }
            let predecessor_indices = endpoint_indices(genome, &id_to_index, &preds, true);
            let successor_indices = endpoint_indices(genome, &id_to_index, &succs, false);
            let weights = link_weights(&preds);
            let activation = match gene.node_type {
                NodeType::Bias => ONE,
                _ => 0,
            };
            let node = Node {
                gene,
                predecessor_indices,
                successor_indices,
                weights,
                active: false,
                input_sum: 0,
                activation,
            };
            proof {
                let want = built_node(genome.nodes@, genome.links@, i as int);
                assert(node@.predecessor_indices =~= want.predecessor_indices);
                assert(node@.successor_indices =~= want.successor_indices);
                assert(node@.weights =~= want.weights);
                assert(node@ == want);
            }
            nodes.push(node);
            i += 1;
        }
        let network = Network { id_to_index, nodes };
        proof {
            assert(network@ =~= built(genome.nodes@, genome.links@));
            assert(genes_of(network@) =~= genome.nodes@);
            assert forall|i: int| 0 <= i < network@.len() implies {
                &&& (#[trigger] network@[i]).weights.len() == network@[i].predecessor_indices.len()
                &&& forall|k: int|
                    0 <= k < network@[i].predecessor_indices.len() ==> (
                    #[trigger] network@[i].predecessor_indices[k]) < network@.len()
                &&& forall|k: int|
                    0 <= k < network@[i].successor_indices.len() ==> (
                    #[trigger] network@[i].successor_indices[k]) < network@.len()
                &&& network@[i].gene.node_type == NodeType::Bias ==> network@[i].activation == ONE
            } by {
                assert(network@[i] == network.nodes@[i]@);
                assert forall|k: int| 0 <= k < network@[i].predecessor_indices.len() implies (
                #[trigger] network@[i].predecessor_indices[k]) < network@.len() by {
                    assert(network.nodes@[i].predecessor_indices@[k] < genome.nodes@.len());
                }
                assert forall|k: int| 0 <= k < network@[i].successor_indices.len() implies (
                #[trigger] network@[i].successor_indices[k]) < network@.len() by {
                    assert(network.nodes@[i].successor_indices@[k] < genome.nodes@.len());
                }
            }
        }
        network
    }

    /// A network with the same nodes in the same state.
    pub fn duplicate(&self) -> (copy: Network)
        ensures
            copy@ == self@,
            copy.id_to_index@ == self.id_to_index@,
            self.wf() ==> copy.wf(),
    {
        let id_to_index = self.id_to_index.clone();
        let mut nodes: Vec<Node> = Vec::new();
        let mut i: usize = 0;
        while i < self.nodes.len()
            invariant
                i <= self.nodes@.len(),
                nodes@.len() == i,
                forall|k: int| 0 <= k < i ==> (#[trigger] nodes@[k])@ == self.nodes@[k]@,
            decreases self.nodes@.len() - i,
        {
            let node = &self.nodes[i];
            nodes.push(
                Node {
                    gene: node.gene,
                    predecessor_indices: copy_indices(&node.predecessor_indices),
                    successor_indices: copy_indices(&node.successor_indices),
                    weights: copy_weights(&node.weights),
                    active: node.active,
                    input_sum: node.input_sum,
                    activation: node.activation,
                },
            );
            i += 1;
        }
        let copy = Network { id_to_index, nodes };
        proof {
            assert(copy@ =~= self@);
            assert(genes_of(copy@) =~= genes_of(self@));
        }
        copy
    }

    /// The number of input nodes.
    pub fn num_inputs(&self) -> (n: usize)
        ensures
            n == inputs_upto(self@, self@.len() as int),
    {
        let mut n: usize = 0;
        let mut i: usize = 0;
        while i < self.nodes.len()
            invariant
                i <= self.nodes@.len(),
                n <= i,
                n == inputs_upto(self@, i as int),
            decreases self.nodes@.len() - i,
        {
            match self.nodes[i].gene.node_type {
                NodeType::Input => {
                    n += 1;
                },
                _ => {},
            }
            i += 1;
        }
        n
    }

    /// The identities and activations of the output nodes, in node order.
    pub fn get_output(&self) -> (output: Vec<(NodeId, i64)>)
        ensures
            output@ == outputs_upto(self@, self@.len() as int),
    {
        let mut output: Vec<(NodeId, i64)> = Vec::new();
        let mut i: usize = 0;
        while i < self.nodes.len()
            invariant
                i <= self.nodes@.len(),
                output@ == outputs_upto(self@, i as int),
            decreases self.nodes@.len() - i,
        {
            match self.nodes[i].gene.node_type {
                NodeType::Output => {
                    output.push((self.nodes[i].gene.id, self.nodes[i].activation));
                },
                _ => {},
            }
            i += 1;
        }
        output
    }

    /// Whether every output node is active.
    pub fn are_outputs_activated(&self) -> (all: bool)
        ensures
            all == outputs_active(self@),
    {
        let mut i: usize = 0;
        while i < self.nodes.len()
            invariant
                i <= self.nodes@.len(),
                forall|k: int|
                    0 <= k < i && (#[trigger] self@[k]).gene.node_type == NodeType::Output
                        ==> self@[k].active,
            decreases self.nodes@.len() - i,
        {
            let is_output = match self.nodes[i].gene.node_type {
                NodeType::Output => true,
                _ => false,
            };
            if is_output && !self.nodes[i].active {
                assert(self@[i as int].gene.node_type == NodeType::Output && !self@[i as int].active);
                return false;
            }
            i += 1;
        }
        true
    }

    /// Every pair of `input` names an input node of the network.
    pub open spec fn accepts(&self, input: Seq<(NodeId, i64)>) -> bool {
        forall|k: int|
            0 <= k < input.len() ==> self.id_to_index@.contains_key((#[trigger] input[k]).0)
                && self@[self.id_to_index@[input[k].0] as int].gene.node_type == NodeType::Input
    }

    /// The network has an input node for each identity below `num_inputs`
    /// and at least `num_outputs` output nodes.
    pub open spec fn has_ports(&self, num_inputs: usize, num_outputs: usize) -> bool {
        &&& forall|n: usize|
            n < num_inputs ==> #[trigger] self.id_to_index@.contains_key(n) && genes_of(
                self@,
            )[self.id_to_index@[n] as int].node_type == NodeType::Input
        &&& output_count(genes_of(self@), self@.len() as int) >= num_outputs
    }

    /// Whether the network has an input node for each identity below
    /// `num_inputs` and at least `num_outputs` output nodes.
    pub fn check_ports(&self, num_inputs: usize, num_outputs: usize) -> (ok: bool)
        requires
            self.wf(),
        ensures
            ok == self.has_ports(num_inputs, num_outputs),
    {
        let mut n: usize = 0;
        while n < num_inputs
            invariant
                n <= num_inputs,
                self.wf(),
                forall|m: usize|
                    m < n ==> #[trigger] self.id_to_index@.contains_key(m) && genes_of(
                        self@,
                    )[self.id_to_index@[m] as int].node_type == NodeType::Input,
            decreases num_inputs - n,
        {
            match self.id_to_index.get(&n) {
                Some(at) => {
                    assert(genes_of(self@)[*at as int] == self@[*at as int].gene);
                    let is_input = match self.nodes[*at].gene.node_type {
                        NodeType::Input => true,
                        _ => false,
                    };
                    if !is_input {
                        return false;
                    }
                },
                None => {
                    return false;
                },
            }
            proof {
                assert forall|m: usize| m < n + 1 implies #[trigger] self.id_to_index@.contains_key(
                    m,
                ) && genes_of(self@)[self.id_to_index@[m] as int].node_type
                    == NodeType::Input by {
                    if m == n {
                        assert(self.id_to_index@.contains_key(n));
                    } else {
                        assert(self.id_to_index@.contains_key(m));
                    }
                }
            }
            n += 1;
        }
        proof {
            lemma_output_count(self@, self@.len() as int);
        }
        self.get_output().len() >= num_outputs
    }

    /// Whether every pair of `input` names an input node of the network.
    pub fn accepts_input(&self, input: &Vec<(NodeId, i64)>) -> (ok: bool)
        requires
            self.wf(),
        ensures
            ok == self.accepts(input@),
    {
        let mut k: usize = 0;
        while k < input.len()
            invariant
                k <= input@.len(),
                self.wf(),
                forall|m: int|
                    0 <= m < k ==> self.id_to_index@.contains_key((#[trigger] input@[m]).0)
                        && self@[self.id_to_index@[input@[m].0] as int].gene.node_type
                        == NodeType::Input,
            decreases input@.len() - k,
        {
            let id = input[k].0;
            match self.id_to_index.get(&id) {
                Some(at) => {
                    assert(genes_of(self@)[*at as int] == self@[*at as int].gene);
                    match self.nodes[*at].gene.node_type {
                        NodeType::Input => {},
                        _ => {
                            return false;
                        },
                    }
                },
                None => {
                    return false;
                },
            }
            k += 1;
        }
        true
    }

    /// Writes the given activations to the input nodes that the pairs name.
    pub fn set_input(&mut self, input: &Vec<(NodeId, i64)>)
        requires
            old(self).wf(),
            old(self).accepts(input@),
        ensures
            final(self)@ == with_inputs(
                old(self)@,
                old(self).id_to_index@,
                input@,
                input@.len() as int,
            ),
            final(self).id_to_index@ == old(self).id_to_index@,
            genes_of(final(self)@) == genes_of(old(self)@),
            final(self).wf(),
    {
        let mut k: usize = 0;
        while k < input.len()
            invariant
                k <= input@.len(),
                self.id_to_index@ == old(self).id_to_index@,
                self.wf(),
                self.accepts(input@),
                genes_of(self@) == genes_of(old(self)@),
                self@ == with_inputs(old(self)@, old(self).id_to_index@, input@, k as int),
            decreases input@.len() - k,
        {
            let id = input[k].0;
            let activation = input[k].1;
            let ghost before = self@;
            assert(self.id_to_index@.contains_key(input@[k as int].0));
            match self.id_to_index.get(&id) {
                Some(at) => {
                    let at = *at;
                    assert(genes_of(self@)[at as int] == self@[at as int].gene);
                    self.nodes[at].activation = activation;
                    proof {
                        let node = before[at as int];
                        let changed = NodeView {
                            gene: node.gene,
                            predecessor_indices: node.predecessor_indices,
                            successor_indices: node.successor_indices,
                            weights: node.weights,
                            active: node.active,
                            input_sum: node.input_sum,
                            activation,
                        };
                        assert(self@ =~= before.update(at as int, changed));
                        assert(genes_of(self@) =~= genes_of(before));
                        assert forall|i: int| 0 <= i < self@.len() implies {
                            &&& (#[trigger] self@[i]).weights.len()
                                == self@[i].predecessor_indices.len()
                            &&& forall|m: int|
                                0 <= m < self@[i].predecessor_indices.len() ==> (
                                #[trigger] self@[i].predecessor_indices[m]) < self@.len()
                            &&& forall|m: int|
                                0 <= m < self@[i].successor_indices.len() ==> (
                                #[trigger] self@[i].successor_indices[m]) < self@.len()
                            &&& self@[i].gene.node_type == NodeType::Bias ==> self@[i].activation
                                == ONE
                        } by {
                            assert(before[i].weights.len() == before[i].predecessor_indices.len());
                        }
                        assert forall|m: int| 0 <= m < input@.len() implies self.id_to_index@.contains_key(
                            (#[trigger] input@[m]).0,
                        ) && self@[self.id_to_index@[input@[m].0] as int].gene.node_type
                            == NodeType::Input by {
                            let j = self.id_to_index@[input@[m].0] as int;
                            assert(before[j].gene.node_type == NodeType::Input);
                            assert(genes_of(self@)[j] == genes_of(before)[j]);
                        }
                    }
                },
                None => {},
            }
            k += 1;
        }
    }

    /// Puts every node into its rest state: inactive, with the activation
    /// one for a bias node and zero for any other.
    pub fn flush(&mut self)
        ensures
            final(self)@ == Seq::new(old(self)@.len(), |i: int| flushed_node(old(self)@[i])),
            final(self).id_to_index@ == old(self).id_to_index@,
            genes_of(final(self)@) == genes_of(old(self)@),
            old(self).wf() ==> final(self).wf(),
    {
        let mut i: usize = 0;
        while i < self.nodes.len()
            invariant
                i <= self.nodes@.len(),
                self.id_to_index@ == old(self).id_to_index@,
                self@.len() == old(self)@.len(),
                forall|k: int| 0 <= k < i ==> #[trigger] self@[k] == flushed_node(old(self)@[k]),
                forall|k: int| i <= k < self@.len() ==> #[trigger] self@[k] == old(self)@[k],
            decreases self.nodes@.len() - i,
        {
            let ghost before = self@;
            let activation = match self.nodes[i].gene.node_type {
                NodeType::Bias => ONE,
                _ => 0,
            };
            self.nodes[i].active = false;
            self.nodes[i].activation = activation;
            proof {
                assert(self@ =~= before.update(i as int, flushed_node(before[i as int])));
            }
            i += 1;
        }
        proof {
            assert(self@ =~= Seq::new(old(self)@.len(), |i: int| flushed_node(old(self)@[i])));
            assert(genes_of(self@) =~= genes_of(old(self)@));
            if old(self).wf() {
                assert forall|i: int| 0 <= i < self@.len() implies {
                    &&& (#[trigger] self@[i]).weights.len() == self@[i].predecessor_indices.len()
                    &&& forall|m: int|
                        0 <= m < self@[i].predecessor_indices.len() ==> (
                        #[trigger] self@[i].predecessor_indices[m]) < self@.len()
                    &&& forall|m: int|
                        0 <= m < self@[i].successor_indices.len() ==> (
                        #[trigger] self@[i].successor_indices[m]) < self@.len()
                    &&& self@[i].gene.node_type == NodeType::Bias ==> self@[i].activation == ONE
                } by {
                    assert(old(self)@[i].weights.len() == old(self)@[i].predecessor_indices.len());
                }
            }
        }
    }

    /// What the node `i` gathers from the nodes that feed it.
    fn gather_for(&self, i: usize) -> (gathered: (bool, i64))
        requires
            well_linked(self@),
            i < self@.len(),
        ensures
            gathered.0 == gathered_active(
                self@,
                i as int,
                self@[i as int].predecessor_indices.len() as int,
            ),
            gathered.1 == gathered_sum(
                self@,
                i as int,
                self@[i as int].predecessor_indices.len() as int,
            ),
    {
        let node = &self.nodes[i];
        assert(self@[i as int] == node@);
        let mut active = false;
        let mut input_sum: i64 = 0;
        let mut k: usize = 0;
        while k < node.predecessor_indices.len()
            invariant
                k <= node.predecessor_indices@.len(),
                well_linked(self@),
                i < self@.len(),
                self@[i as int] == node@,
                active == gathered_active(self@, i as int, k as int),
                input_sum == gathered_sum(self@, i as int, k as int),
            decreases node.predecessor_indices@.len() - k,
        {
            let in_index = node.predecessor_indices[k];
            assert(self@[i as int].predecessor_indices[k as int] < self@.len());
            let weight = node.weights[k];
            let in_node = &self.nodes[in_index];
            assert(self@[in_index as int] == in_node@);
            let in_active = in_node.active || match in_node.gene.node_type {
                NodeType::Input => true,
                NodeType::Bias => true,
                _ => false,
            };
            if in_active {
                active = true;
                input_sum = add_saturating(input_sum, multiply(weight, in_node.activation));
            }
            k += 1;
        }
        (active, input_sum)
    }

    /// Lets every node that is not a source gather its input, one node
    /// after the other.
    fn gather_inputs(&mut self)
        requires
            well_linked(old(self)@),
        ensures
            final(self)@ == gather(old(self)@, old(self)@.len() as int),
            final(self).id_to_index@ == old(self).id_to_index@,
    {
        let mut i: usize = 0;
        while i < self.nodes.len()
            invariant
                i <= self.nodes@.len(),
                self@.len() == old(self)@.len(),
                self.id_to_index@ == old(self).id_to_index@,
                well_linked(old(self)@),
                self@ == gather(old(self)@, i as int),
            decreases self.nodes@.len() - i,
        {
            proof {
                lemma_gather_keeps_links(old(self)@, i as int);
            }
            let ghost before = self@;
            let is_source_node = match self.nodes[i].gene.node_type {
                NodeType::Input => true,
                NodeType::Bias => true,
                _ => false,
            };
            if !is_source_node {
                let gathered = self.gather_for(i);
                self.nodes[i].active = gathered.0;
                self.nodes[i].input_sum = gathered.1;
            }
            proof {
                assert(self@ =~= before.update(i as int, gather_node(before, i as int)));
            }
            i += 1;
        }
    }

    /// Gives every active node that is not a source its new activation.
    fn apply_activations<F: Fn(i64) -> i64>(&mut self, squash: &F)
        requires
            forall|x: i64| call_requires(*squash, (x,)),
        ensures
            squashed(old(self)@, final(self)@, *squash),
            final(self).id_to_index@ == old(self).id_to_index@,
    {
        let mut i: usize = 0;
        while i < self.nodes.len()
            invariant
                i <= self.nodes@.len(),
                self@.len() == old(self)@.len(),
                self.id_to_index@ == old(self).id_to_index@,
                forall|x: i64| call_requires(*squash, (x,)),
                forall|k: int| i <= k < self@.len() ==> #[trigger] self@[k] == old(self)@[k],
                forall|k: int|
                    0 <= k < i ==> {
                        let node = old(self)@[k];
                        if !is_source(node.gene.node_type) && node.active {
                            &&& call_ensures(
                                *squash,
                                (node.input_sum,),
                                (#[trigger] self@[k]).activation,
                            )
                            &&& self@[k] == NodeView {
                                gene: node.gene,
                                predecessor_indices: node.predecessor_indices,
                                successor_indices: node.successor_indices,
                                weights: node.weights,
                                active: node.active,
                                input_sum: node.input_sum,
                                activation: self@[k].activation,
                            }
                        } else {
                            self@[k] == node
                        }
                    },
            decreases self.nodes@.len() - i,
        {
            let ghost before = self@;
            let is_source_node = match self.nodes[i].gene.node_type {
                NodeType::Input => true,
                NodeType::Bias => true,
                _ => false,
            };
            if !is_source_node && self.nodes[i].active {
                let activation = squash(self.nodes[i].input_sum);
                self.nodes[i].activation = activation;
                proof {
                    let node = before[i as int];
                    assert(self@ =~= before.update(
                        i as int,
                        NodeView {
                            gene: node.gene,
                            predecessor_indices: node.predecessor_indices,
                            successor_indices: node.successor_indices,
                            weights: node.weights,
                            active: node.active,
                            input_sum: node.input_sum,
                            activation,
                        },
                    ));
                }
            }
            i += 1;
        }
    }

    /// Activates the network: up to fifty iterations, in each of which every
    /// node that is not a source gathers its input and the active ones then
    /// take `squash` of their input sum as their activation. The activation
    /// ends as soon as an iteration leaves every output node active. The
    /// result is the number of iterations made.
    pub fn activate<F: Fn(i64) -> i64>(&mut self, squash: &F) -> (iterations: usize)
        requires
            old(self).wf(),
            forall|x: i64| call_requires(*squash, (x,)),
        ensures
            1 <= iterations <= MAX_ITERATIONS,
            iterations < MAX_ITERATIONS ==> outputs_active(final(self)@),
            exists|trace: Seq<Seq<NodeView>>|
                trace.len() == iterations + 1 && trace[0] == old(self)@ && trace[iterations as int]
                    == final(self)@ && #[trigger] is_activation(trace, *squash),
            is_activated(old(self)@, final(self)@, *squash),
            final(self).id_to_index@ == old(self).id_to_index@,
            genes_of(final(self)@) == genes_of(old(self)@),
            final(self).wf(),
    {
        let ghost mut trace: Seq<Seq<NodeView>> = seq![self@];
        let mut iterations: usize = 0;
        let mut done = false;
        while iterations < MAX_ITERATIONS && !done
            invariant
                iterations <= MAX_ITERATIONS,
                forall|x: i64| call_requires(*squash, (x,)),
                self.wf(),
                self.id_to_index@ == old(self).id_to_index@,
                genes_of(self@) == genes_of(old(self)@),
                trace.len() == iterations + 1,
                trace[0] == old(self)@,
                trace[iterations as int] == self@,
                forall|k: int|
                    0 <= k < trace.len() - 1 ==> stepped(#[trigger] trace[k], trace[k + 1], *squash),
                forall|k: int| 0 < k < trace.len() - 1 ==> !outputs_active(#[trigger] trace[k]),
                done ==> iterations >= 1 && outputs_active(self@),
                !done && iterations >= 1 ==> !outputs_active(self@),
            decreases MAX_ITERATIONS - iterations, if done { 0int } else { 1int },
        {
            let ghost before = self@;
            proof {
                lemma_gather_keeps_links(before, before.len() as int);
            }
            self.gather_inputs();
            let ghost middle = self@;
            self.apply_activations(squash);
            proof {
                let after = self@;
                assert(stepped(before, after, *squash));
                assert(genes_of(after) =~= genes_of(before)) by {
                    assert forall|i: int| 0 <= i < after.len() implies after[i].gene
                        == before[i].gene by {
                        assert(middle[i].gene == before[i].gene);
                    }
                }
                assert forall|i: int| 0 <= i < after.len() implies {
                    &&& (#[trigger] after[i]).weights.len() == after[i].predecessor_indices.len()
                    &&& forall|m: int|
                        0 <= m < after[i].predecessor_indices.len() ==> (
                        #[trigger] after[i].predecessor_indices[m]) < after.len()
                    &&& forall|m: int|
                        0 <= m < after[i].successor_indices.len() ==> (
                        #[trigger] after[i].successor_indices[m]) < after.len()
                    &&& after[i].gene.node_type == NodeType::Bias ==> after[i].activation == ONE
                } by {
                    assert(middle[i].weights.len() == middle[i].predecessor_indices.len());
                }
                let longer = trace.push(after);
                assert forall|k: int| 0 <= k < longer.len() - 1 implies stepped(
                    #[trigger] longer[k],
                    longer[k + 1],
                    *squash,
                ) by {
                    if k < trace.len() - 1 {
                        assert(longer[k] == trace[k]);
                        assert(longer[k + 1] == trace[k + 1]);
                        assert(stepped(trace[k], trace[k + 1], *squash));
                    }
                }
                assert forall|k: int| 0 < k < longer.len() - 1 implies !outputs_active(
                    #[trigger] longer[k],
                ) by {
                    assert(longer[k] == trace[k]);
                    if k < trace.len() - 1 {
                        assert(!outputs_active(trace[k]));
                    }
                }
                trace = longer;
            }
            iterations += 1;
            if self.are_outputs_activated() {
                done = true;
            }
        }
        proof {
            assert(is_activation(trace, *squash));
            assert(trace[trace.len() - 1] == self@);
        }
        iterations
    }
}

} // verus!
