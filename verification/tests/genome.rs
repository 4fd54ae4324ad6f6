use neat::genes::{compatibility, CompatCoefficients, Genome, Link, Node, NodeType};
use neat::mutation::{split_link, State};

fn link(from_id: usize, to_id: usize, innovation: u64, weight: i64) -> Link {
    Link { from_id, to_id, enabled: true, innovation, weight, is_recurrent: false }
}

fn node(id: usize, node_type: NodeType) -> Node {
    Node { id, node_type }
}

fn standard() -> CompatCoefficients {
    CompatCoefficients { disjoint: 1_000_000, excess: 1_000_000, weight_diff: 400_000 }
}

fn chain() -> Genome {
    Genome {
        nodes: vec![
            node(0, NodeType::Input),
            node(1, NodeType::Output),
            node(2, NodeType::Hidden),
            node(3, NodeType::Hidden),
        ],
        links: vec![link(0, 2, 0, 0), link(2, 3, 1, 0), link(3, 1, 2, 0)],
    }
}

#[test]
fn initial_genome_has_inputs_bias_outputs_in_order() {
    let genome = Genome::initial_genome(2, 1, 2, true);
    assert_eq!(
        genome.nodes,
        vec![
            node(0, NodeType::Input),
            node(1, NodeType::Input),
            node(2, NodeType::Bias),
            node(3, NodeType::Output),
        ]
    );
    assert_eq!(genome.links, vec![link(0, 3, 0, 0), link(1, 3, 1, 0), link(2, 3, 2, 0)]);
    assert!(genome.assert_integrity());
}

#[test]
fn initial_genome_links_each_output_in_turn() {
    let genome = Genome::initial_genome(2, 2, 1, true);
    assert_eq!(genome.num_nodes(), 5);
    assert_eq!(
        genome.links,
        vec![link(0, 3, 0, 0), link(2, 3, 1, 0), link(0, 4, 2, 0), link(2, 4, 3, 0)]
    );
    assert!(genome.assert_integrity());
}

#[test]
fn initial_genome_without_connected_inputs_has_bias_links_only() {
    let genome = Genome::initial_genome(4, 2, 0, true);
    assert_eq!(genome.num_nodes(), 7);
    assert_eq!(genome.links, vec![link(4, 5, 0, 0), link(4, 6, 1, 0)]);
}

#[test]
fn initial_genome_without_links() {
    let genome = Genome::initial_genome(1, 1, 0, false);
    assert_eq!(genome.num_nodes(), 3);
    assert_eq!(genome.links.len(), 0);
    assert!(genome.assert_integrity());
}

#[test]
fn splitting_a_link_adds_a_hidden_node_and_two_links() {
    let mut genome = Genome::initial_genome(2, 1, 2, true);
    let mut state = State::new(4, 3);
    split_link(
        &mut genome,
        0,
        &mut state.node_innovations,
        &mut state.innovation_counter,
        &mut state.node_counter,
    );
    assert_eq!(genome.nodes.len(), 5);
    assert_eq!(genome.nodes[4], node(4, NodeType::Hidden));
    assert_eq!(genome.links.len(), 5);
    assert!(!genome.links[0].enabled);
    assert_eq!(genome.links[3], link(0, 4, 3, 1_000_000));
    assert_eq!(genome.links[4], link(4, 3, 4, 0));
    assert_eq!(state.node_counter, 5);
    assert_eq!(state.innovation_counter, 5);
    assert!(genome.assert_integrity());
}

#[test]
fn splitting_keeps_the_weight_on_the_outgoing_half() {
    let mut genome = Genome::initial_genome(1, 1, 1, false);
    genome.links[0].weight = -2_500_000;
    genome.links[0].is_recurrent = true;
    let mut state = State::new(3, 1);
    split_link(
        &mut genome,
        0,
        &mut state.node_innovations,
        &mut state.innovation_counter,
        &mut state.node_counter,
    );
    assert_eq!(
        genome.links[1],
        Link { from_id: 0, to_id: 3, enabled: true, innovation: 1, weight: 1_000_000, is_recurrent: true }
    );
    assert_eq!(
        genome.links[2],
        Link { from_id: 3, to_id: 2, enabled: true, innovation: 2, weight: -2_500_000, is_recurrent: false }
    );
}

#[test]
fn equal_splits_in_one_generation_share_their_identities() {
    let mut first = Genome::initial_genome(2, 1, 2, true);
    let mut second = Genome::initial_genome(2, 1, 2, true);
    let mut state = State::new(4, 3);
    split_link(
        &mut first,
        0,
        &mut state.node_innovations,
        &mut state.innovation_counter,
        &mut state.node_counter,
    );
    split_link(
        &mut second,
        0,
        &mut state.node_innovations,
        &mut state.innovation_counter,
        &mut state.node_counter,
    );
    assert_eq!(first.nodes[4].id, 4);
    assert_eq!(second.nodes[4].id, 4);
    assert_eq!((first.links[3].innovation, first.links[4].innovation), (3, 4));
    assert_eq!((second.links[3].innovation, second.links[4].innovation), (3, 4));
    assert_eq!(state.node_counter, 5);
    assert_eq!(state.innovation_counter, 5);
}

#[test]
fn different_splits_in_one_generation_get_different_identities() {
    let mut first = Genome::initial_genome(2, 1, 2, true);
    let mut second = Genome::initial_genome(2, 1, 2, true);
    let mut state = State::new(4, 3);
    split_link(
        &mut first,
        0,
        &mut state.node_innovations,
        &mut state.innovation_counter,
        &mut state.node_counter,
    );
    split_link(
        &mut second,
        1,
        &mut state.node_innovations,
        &mut state.innovation_counter,
        &mut state.node_counter,
    );
    assert_eq!(second.nodes[4].id, 5);
    assert_eq!((second.links[3].innovation, second.links[4].innovation), (5, 6));
    assert_eq!(state.node_counter, 6);
    assert_eq!(state.innovation_counter, 7);
}

#[test]
fn compatibility_counts_disjoint_and_excess_links() {
    let nodes = vec![
        node(0, NodeType::Input),
        node(1, NodeType::Output),
        node(2, NodeType::Hidden),
        node(3, NodeType::Hidden),
        node(4, NodeType::Hidden),
    ];
    let a = Genome {
        nodes: nodes.clone(),
        links: vec![link(0, 1, 0, 500_000), link(0, 2, 1, -250_000), link(2, 1, 2, 0), link(0, 3, 4, 0)],
    };
    let b = Genome {
        nodes,
        links: vec![link(0, 1, 0, 500_000), link(0, 2, 1, -250_000), link(0, 4, 3, 0), link(4, 1, 5, 0)],
    };
    assert_eq!(compatibility(&standard(), &a, &b), 4_000_000);
    assert_eq!(compatibility(&standard(), &b, &a), 4_000_000);
    assert_eq!(compatibility(&standard(), &a, &a), 0);
}

#[test]
fn compatibility_weighs_the_mean_weight_difference() {
    let nodes = vec![node(0, NodeType::Input), node(1, NodeType::Output), node(2, NodeType::Hidden)];
    let a = Genome {
        nodes: nodes.clone(),
        links: vec![link(0, 1, 0, 500_000), link(0, 2, 1, -1_000_000)],
    };
    let b = Genome { nodes, links: vec![link(0, 1, 0, 1_000_000), link(0, 2, 1, 500_000)] };
    // differences 0.5 and 1.5, mean 1.0, weighted by 0.4
    assert_eq!(compatibility(&standard(), &a, &b), 400_000);
    let doubled = CompatCoefficients { disjoint: 0, excess: 0, weight_diff: 2_000_000 };
    assert_eq!(compatibility(&doubled, &a, &b), 2_000_000);
}

#[test]
fn compatibility_of_genomes_without_matching_links() {
    let nodes = vec![node(0, NodeType::Input), node(1, NodeType::Output), node(2, NodeType::Hidden)];
    let a = Genome { nodes: nodes.clone(), links: vec![link(0, 1, 0, 0), link(0, 2, 1, 0)] };
    let empty = Genome { nodes: nodes.clone(), links: vec![] };
    let other = Genome { nodes, links: vec![link(2, 1, 5, 3_000_000)] };
    assert_eq!(compatibility(&standard(), &a, &empty), 2_000_000);
    assert_eq!(compatibility(&standard(), &empty, &a), 2_000_000);
    assert_eq!(compatibility(&standard(), &empty, &empty), 0);
    // both links of `a` lie before the only link of `other`: two disjoint, one excess
    let c = CompatCoefficients { disjoint: 1_000_000, excess: 3_000_000, weight_diff: 400_000 };
    assert_eq!(compatibility(&c, &a, &other), 5_000_000);
}

#[test]
fn add_link_keeps_the_order_of_innovation() {
    let mut genome = Genome {
        nodes: vec![
            node(0, NodeType::Input),
            node(1, NodeType::Output),
            node(2, NodeType::Hidden),
            node(3, NodeType::Hidden),
        ],
        links: vec![],
    };
    genome.add_link(link(0, 1, 5, 0));
    genome.add_link(link(0, 2, 2, 0));
    genome.add_link(link(2, 1, 9, 0));
    genome.add_link(link(0, 3, 7, 0));
    let innovations: Vec<u64> = genome.links.iter().map(|l| l.innovation).collect();
    assert_eq!(innovations, vec![2, 5, 7, 9]);
    assert!(genome.assert_integrity());
}

#[test]
fn links_and_nodes_are_found() {
    let genome = chain();
    assert!(genome.is_node(3));
    assert!(!genome.is_node(4));
    assert!(genome.is_link(2, 3));
    assert!(!genome.is_link(3, 2));
    assert_eq!(genome.get_node(2), Some(&node(2, NodeType::Hidden)));
    assert_eq!(genome.get_node(9), None);
    assert_eq!(genome.get_link(3, 1), Some(&link(3, 1, 2, 0)));
    assert_eq!(genome.get_link(1, 3), None);
}

#[test]
fn only_enabled_links_count_as_successors_and_predecessors() {
    let mut genome = chain();
    genome.add_link(link(0, 3, 3, 0));
    genome.add_link(link(0, 1, 4, 0));
    genome.links[0].enabled = false;
    assert_eq!(genome.num_links(), 4);
    let successors: Vec<u64> = genome.successor_links(0).iter().map(|l| l.innovation).collect();
    assert_eq!(successors, vec![3, 4]);
    let predecessors: Vec<u64> = genome.predecessor_links(3).iter().map(|l| l.innovation).collect();
    assert_eq!(predecessors, vec![1, 3]);
    assert_eq!(genome.predecessor_links(2).len(), 0);
}

#[test]
fn a_link_is_recurrent_when_its_source_is_reached_from_its_target() {
    let genome = chain();
    assert!(genome.is_new_link_recurrent(3, 2));
    assert!(genome.is_new_link_recurrent(1, 2));
    assert!(genome.is_new_link_recurrent(2, 2));
    assert!(!genome.is_new_link_recurrent(0, 1));
    assert!(!genome.is_new_link_recurrent(2, 1));
    assert!(!genome.is_new_link_recurrent(0, 3));
}

#[test]
fn the_walk_follows_neither_disabled_nor_recurrent_links() {
    let mut disabled = chain();
    disabled.links[1].enabled = false;
    assert!(!disabled.is_new_link_recurrent(3, 2));
    let mut recurrent = chain();
    recurrent.links[1].is_recurrent = true;
    assert!(!recurrent.is_new_link_recurrent(3, 2));
    assert!(recurrent.is_new_link_recurrent(1, 3));
}

#[test]
fn the_walk_ends_on_a_cycle() {
    let mut genome = chain();
    genome.add_link(link(3, 2, 3, 0));
    assert!(genome.is_new_link_recurrent(1, 2));
    assert!(!genome.is_new_link_recurrent(0, 2));
}

#[test]
fn integrity_fails_on_each_broken_rule() {
    assert!(chain().assert_integrity());

    let mut twice = chain();
    twice.nodes.push(node(2, NodeType::Hidden));
    assert!(!twice.assert_integrity());

    let mut unordered = chain();
    unordered.links.swap(0, 1);
    assert!(!unordered.assert_integrity());

    let mut equal_innovation = chain();
    equal_innovation.links[1].innovation = 0;
    assert!(!equal_innovation.assert_integrity());

    let mut doubled = chain();
    doubled.links.push(link(0, 2, 3, 0));
    assert!(!doubled.assert_integrity());

    let mut orphan = chain();
    orphan.links.push(link(0, 7, 3, 0));
    assert!(!orphan.assert_integrity());

    let mut into_input = chain();
    into_input.links.push(link(2, 0, 3, 0));
    assert!(!into_input.assert_integrity());

    let mut into_bias = chain();
    into_bias.nodes.push(node(4, NodeType::Bias));
    assert!(into_bias.assert_integrity());
    into_bias.links.push(link(2, 4, 3, 0));
    assert!(!into_bias.assert_integrity());

    let mut heavy = chain();
    heavy.links[0].weight = 8_000_001;
    assert!(!heavy.assert_integrity());
    heavy.links[0].weight = -8_000_000;
    assert!(heavy.assert_integrity());
}

#[test]
fn a_duplicate_has_the_same_nodes_and_links() {
    let genome = chain();
    let copy = genome.duplicate();
    assert_eq!(copy.nodes, genome.nodes);
    assert_eq!(copy.links, genome.links);
}
