use neat::genes::{Genome, Link, Node, NodeType};
use neat::nn::Network;

fn squash(x: i64) -> i64 {
    ((x as f64 / 1e6).tanh() * 1e6).round() as i64
}

fn link(from_id: usize, to_id: usize, innovation: u64, weight: i64) -> Link {
    Link { from_id, to_id, enabled: true, innovation, weight, is_recurrent: false }
}

fn two_inputs(w1: i64, w2: i64, bias: i64) -> Network {
    let mut genome = Genome::initial_genome(2, 1, 2, true);
    genome.links[0].weight = w1;
    genome.links[1].weight = w2;
    genome.links[2].weight = bias;
    Network::from_genome(&genome)
}

#[test]
fn a_network_has_the_nodes_and_links_of_its_genome() {
    let mut genome = Genome::initial_genome(2, 1, 2, true);
    genome.links[0].weight = 1_500_000;
    genome.links[1].enabled = false;
    let network = Network::from_genome(&genome);
    assert_eq!(network.nodes.len(), 4);
    assert_eq!(network.num_inputs(), 2);
    assert_eq!(network.nodes[3].predecessor_indices, vec![0, 2]);
    assert_eq!(network.nodes[3].weights, vec![1_500_000, 0]);
    assert_eq!(network.nodes[0].successor_indices, vec![3]);
    assert_eq!(network.nodes[1].successor_indices, Vec::<usize>::new());
    assert_eq!(network.nodes[2].activation, 1_000_000);
    assert_eq!(network.nodes[0].activation, 0);
    assert!(network.nodes.iter().all(|n| !n.active && n.input_sum == 0));
    assert_eq!(network.id_to_index.get(&3), Some(&3));
    assert_eq!(network.id_to_index.len(), 4);
}

#[test]
fn opposite_inputs_cancel() {
    let mut network = two_inputs(1_000_000, 1_000_000, 0);
    network.set_input(&vec![(0, 1_000_000), (1, -1_000_000)]);
    let iterations = network.activate(&squash);
    assert_eq!(iterations, 1);
    assert_eq!(network.get_output(), vec![(3, 0)]);
    assert!(network.are_outputs_activated());
}

#[test]
fn the_output_is_the_squashed_weighted_sum() {
    let mut network = two_inputs(500_000, 500_000, 250_000);
    network.set_input(&vec![(0, 1_000_000), (1, 1_000_000)]);
    network.activate(&squash);
    assert_eq!(network.nodes[3].input_sum, 1_250_000);
    // tanh(1.25) = 0.848283...
    assert_eq!(network.get_output(), vec![(3, 848_284)]);
    network.set_input(&vec![(0, -2_000_000), (1, 0)]);
    network.activate(&squash);
    assert_eq!(network.nodes[3].input_sum, -750_000);
    // tanh(-0.75) = -0.635148...
    assert_eq!(network.get_output(), vec![(3, -635_149)]);
}

#[test]
fn activation_ends_after_fifty_iterations_when_outputs_never_settle() {
    let genome = Genome::initial_genome(1, 1, 0, false);
    let mut network = Network::from_genome(&genome);
    network.set_input(&vec![(0, 1_000_000)]);
    let iterations = network.activate(&squash);
    assert_eq!(iterations, 50);
    assert!(!network.are_outputs_activated());
    assert_eq!(network.get_output(), vec![(2, 0)]);
}

#[test]
fn a_later_node_sees_an_earlier_one_become_active() {
    let hidden_first = Genome {
        nodes: vec![
            Node { id: 0, node_type: NodeType::Input },
            Node { id: 2, node_type: NodeType::Hidden },
            Node { id: 1, node_type: NodeType::Output },
        ],
        links: vec![link(0, 2, 0, 1_000_000), link(2, 1, 1, 1_000_000)],
    };
    let mut network = Network::from_genome(&hidden_first);
    network.set_input(&vec![(0, 1_000_000)]);
    assert_eq!(network.activate(&squash), 1);
    // the output saw the hidden node active, with the activation it had before
    assert_eq!(network.get_output(), vec![(1, 0)]);
    assert_eq!(network.nodes[1].activation, 761_594);
    assert_eq!(network.activate(&squash), 1);
    // tanh(0.761594) = 0.642015...
    assert_eq!(network.get_output(), vec![(1, 642_015)]);

    let output_first = Genome {
        nodes: vec![
            Node { id: 0, node_type: NodeType::Input },
            Node { id: 1, node_type: NodeType::Output },
            Node { id: 2, node_type: NodeType::Hidden },
        ],
        links: vec![link(0, 2, 0, 1_000_000), link(2, 1, 1, 1_000_000)],
    };
    let mut network = Network::from_genome(&output_first);
    network.set_input(&vec![(0, 1_000_000)]);
    assert_eq!(network.activate(&squash), 2);
    assert_eq!(network.get_output(), vec![(1, 642_015)]);
}

#[test]
fn a_recurrent_link_feeds_back_the_activation_of_the_step_before() {
    let genome = Genome {
        nodes: vec![
            Node { id: 0, node_type: NodeType::Input },
            Node { id: 1, node_type: NodeType::Output },
        ],
        links: vec![
            link(0, 1, 0, 1_000_000),
            Link { from_id: 1, to_id: 1, enabled: true, innovation: 1, weight: 1_000_000, is_recurrent: true },
        ],
    };
    let mut network = Network::from_genome(&genome);
    network.set_input(&vec![(0, 500_000)]);
    network.activate(&squash);
    // tanh(0.5) = 0.462117...
    assert_eq!(network.get_output(), vec![(1, 462_117)]);
    network.activate(&squash);
    assert_eq!(network.nodes[1].input_sum, 962_117);
    // tanh(0.962117) = 0.745232...
    assert_eq!(network.get_output(), vec![(1, squash(962_117))]);
}

#[test]
fn flushing_puts_every_node_to_rest() {
    let mut network = two_inputs(1_000_000, 1_000_000, 1_000_000);
    network.set_input(&vec![(0, 1_000_000), (1, 1_000_000)]);
    network.activate(&squash);
    assert!(network.nodes[3].active);
    assert!(network.nodes[3].activation != 0);
    network.flush();
    assert!(network.nodes.iter().all(|n| !n.active));
    assert_eq!(network.nodes[0].activation, 0);
    assert_eq!(network.nodes[1].activation, 0);
    assert_eq!(network.nodes[2].activation, 1_000_000);
    assert_eq!(network.nodes[3].activation, 0);
    assert_eq!(network.get_output(), vec![(3, 0)]);
}

#[test]
fn a_later_input_for_a_node_prevails() {
    let mut network = two_inputs(0, 0, 0);
    network.set_input(&vec![(0, 1), (1, 2), (0, 3)]);
    assert_eq!(network.nodes[0].activation, 3);
    assert_eq!(network.nodes[1].activation, 2);
}

#[test]
fn outputs_come_in_node_order() {
    let genome = Genome::initial_genome(1, 3, 1, true);
    let mut network = Network::from_genome(&genome);
    network.nodes[2].activation = 7;
    network.nodes[4].activation = -9;
    assert_eq!(network.get_output(), vec![(2, 7), (3, 0), (4, -9)]);
}

#[test]
fn a_duplicate_shares_nothing_with_the_network() {
    let mut network = two_inputs(1_000_000, 1_000_000, 0);
    network.set_input(&vec![(0, 1_000_000), (1, 500_000)]);
    let mut copy = network.duplicate();
    copy.activate(&squash);
    assert_eq!(network.get_output(), vec![(3, 0)]);
    assert_eq!(copy.get_output(), vec![(3, squash(1_500_000))]);
    assert_eq!(copy.id_to_index, network.id_to_index);
}

#[test]
fn large_sums_saturate() {
    let mut network = two_inputs(8_000_000, 8_000_000, 0);
    network.set_input(&vec![(0, i64::MAX), (1, i64::MAX)]);
    network.activate(&squash);
    assert_eq!(network.nodes[3].input_sum, i64::MAX);
    assert_eq!(network.get_output(), vec![(3, 1_000_000)]);
}
