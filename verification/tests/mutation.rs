use neat::genes::{Genome, Link, Node, NodeType};
use neat::mutation::{
    apply_link_mutation, change_link_weights, change_link_weights_perturbate_some,
    change_link_weights_reset_all, change_link_weights_standard, connect, in_newer_part,
    link_fits, mutate, new_link, new_node, random_delta, select_link_mutation, share_of,
    standard_mutation_points, standard_settings, toggle_enable, toggle_link, LinkMutation,
    NewLinkInnovation, NewLinkInnovations, NewNodeInnovation, NewNodeInnovations, Settings, State,
};
use rand::{SeedableRng, StdRng};

fn seeded(seed: usize) -> StdRng {
    StdRng::from_seed(&[seed, 17, 4711][..])
}

fn link(from_id: usize, to_id: usize, innovation: u64, weight: i64) -> Link {
    Link { from_id, to_id, enabled: true, innovation, weight, is_recurrent: false }
}

fn max_node_id(genome: &Genome) -> usize {
    genome.nodes.iter().map(|n| n.id).max().unwrap()
}

fn max_innovation(genome: &Genome) -> u64 {
    genome.links.iter().map(|l| l.innovation).max().unwrap_or(0)
}

#[test]
fn default_settings() {
    let s = standard_settings();
    assert_eq!(s.new_node_prob, 10_000);
    assert_eq!(s.new_link_prob, 300_000);
    assert_eq!(s.change_link_weights_prob, 800_000);
    assert_eq!(s.change_link_weights_power, 500_000);
    assert_eq!(s.recurrent_link_prob, 300_000);
    assert_eq!(s.self_link_prob, 500_000);
    assert_eq!(s.toggle_enable_prob, 50_000);
    assert_eq!(s.mutate_only_prob, 250_000);
    assert_eq!(s.mutate_after_mating_prob, 800_000);
    assert_eq!(s.interspecies_mating_prob, 1_000);
}

#[test]
fn registries_return_what_was_recorded() {
    let mut links = NewLinkInnovations::new();
    let key = NewLinkInnovation { from_id: 1, to_id: 2, is_recurrent: false };
    let other = NewLinkInnovation { from_id: 1, to_id: 2, is_recurrent: true };
    assert_eq!(links.get(&key), None);
    links.insert(key, 7);
    assert_eq!(links.get(&key), Some(7));
    assert_eq!(links.get(&other), None);
    links.insert(other, 8);
    assert_eq!(links.get(&key), Some(7));
    assert_eq!(links.get(&other), Some(8));

    let mut nodes = NewNodeInnovations::new();
    let split = NewNodeInnovation { from_id: 0, to_id: 3, old_innovation: 0 };
    assert_eq!(nodes.get(&split), None);
    nodes.insert(split, (4, 3, 4));
    assert_eq!(nodes.get(&split), Some((4, 3, 4)));
    assert_eq!(nodes.get(&NewNodeInnovation { from_id: 0, to_id: 3, old_innovation: 1 }), None);
}

#[test]
fn a_disabled_link_is_enabled_and_an_only_outgoing_link_stays() {
    let mut genome = Genome::initial_genome(1, 2, 1, false);
    toggle_link(&mut genome, 0);
    assert!(!genome.links[0].enabled);
    assert!(genome.links[1].enabled);
    toggle_link(&mut genome, 1);
    assert!(genome.links[1].enabled);
    toggle_link(&mut genome, 0);
    assert!(genome.links[0].enabled);
    assert!(genome.assert_integrity());
}

#[test]
fn toggling_a_random_link_changes_at_most_one() {
    let mut rng = seeded(1);
    let mut genome = Genome::initial_genome(1, 3, 1, false);
    toggle_enable(&mut genome, &mut rng);
    assert_eq!(genome.links.iter().filter(|l| !l.enabled).count(), 1);
    let mut single = Genome::initial_genome(1, 1, 1, false);
    toggle_enable(&mut single, &mut rng);
    assert!(single.links[0].enabled);
    single.links[0].enabled = false;
    toggle_enable(&mut single, &mut rng);
    assert!(single.links[0].enabled);
    let mut empty = Genome::initial_genome(1, 1, 0, false);
    toggle_enable(&mut empty, &mut rng);
    assert_eq!(empty.links.len(), 0);
}

#[test]
fn equal_new_links_in_one_generation_share_their_innovation() {
    let mut first = Genome::initial_genome(2, 2, 0, false);
    let mut second = Genome::initial_genome(2, 2, 0, false);
    let mut state = State::new(5, 0);
    connect(&mut first, 0, 3, false, 250_000, &mut state.link_innovations, &mut state.innovation_counter);
    assert_eq!(first.links, vec![link(0, 3, 0, 250_000)]);
    assert_eq!(state.innovation_counter, 1);
    connect(&mut second, 1, 3, false, 0, &mut state.link_innovations, &mut state.innovation_counter);
    assert_eq!(second.links[0].innovation, 1);
    connect(&mut second, 0, 3, false, -500_000, &mut state.link_innovations, &mut state.innovation_counter);
    assert_eq!(second.links[0], link(0, 3, 0, -500_000));
    assert_eq!(second.links[1].innovation, 1);
    assert_eq!(state.innovation_counter, 2);
    // the same nodes joined by a recurrent link are another innovation
    let mut third = Genome::initial_genome(2, 2, 0, false);
    connect(&mut third, 0, 3, true, 0, &mut state.link_innovations, &mut state.innovation_counter);
    assert_eq!(third.links[0].innovation, 2);
    assert!(third.links[0].is_recurrent);
    assert!(first.assert_integrity() && second.assert_integrity() && third.assert_integrity());
}

#[test]
fn a_link_fits_when_new_and_of_the_right_recurrence() {
    let genome = Genome {
        nodes: vec![
            Node { id: 0, node_type: NodeType::Input },
            Node { id: 1, node_type: NodeType::Output },
            Node { id: 2, node_type: NodeType::Hidden },
        ],
        links: vec![link(0, 2, 0, 0), link(2, 1, 1, 0)],
    };
    assert!(link_fits(&genome, 0, 1, false));
    assert!(!link_fits(&genome, 0, 1, true));
    assert!(!link_fits(&genome, 0, 2, false));
    assert!(link_fits(&genome, 1, 2, true));
    assert!(!link_fits(&genome, 1, 2, false));
    assert!(link_fits(&genome, 2, 2, true));
    assert!(!link_fits(&genome, 2, 2, false));
}

#[test]
fn weights_are_perturbed_reset_or_kept_and_always_limited() {
    assert_eq!(apply_link_mutation(1_000_000, LinkMutation::Perturbate, 250_000), 1_250_000);
    assert_eq!(apply_link_mutation(7_900_000, LinkMutation::Perturbate, 500_000), 8_000_000);
    assert_eq!(apply_link_mutation(-7_900_000, LinkMutation::Perturbate, -500_000), -8_000_000);
    assert_eq!(apply_link_mutation(1_000_000, LinkMutation::Reset, -300_000), -300_000);
    assert_eq!(apply_link_mutation(1_000_000, LinkMutation::Reset, 9_000_000), 8_000_000);
    assert_eq!(apply_link_mutation(1_000_000, LinkMutation::Unchanged, 500_000), 1_000_000);
    assert_eq!(apply_link_mutation(9_000_000, LinkMutation::Unchanged, 0), 8_000_000);
    assert_eq!(apply_link_mutation(i64::MAX, LinkMutation::Perturbate, i64::MAX), 8_000_000);
}

#[test]
fn the_choice_selects_the_mutation() {
    assert_eq!(select_link_mutation(350_000, 300_000, 100_000), LinkMutation::Perturbate);
    assert_eq!(select_link_mutation(300_000, 300_000, 100_000), LinkMutation::Reset);
    assert_eq!(select_link_mutation(100_001, 300_000, 100_000), LinkMutation::Reset);
    assert_eq!(select_link_mutation(100_000, 300_000, 100_000), LinkMutation::Unchanged);
    assert_eq!(select_link_mutation(0, 0, -100_000), LinkMutation::Reset);
    assert_eq!(select_link_mutation(1, 0, 0), LinkMutation::Perturbate);
    assert_eq!(select_link_mutation(0, 0, 0), LinkMutation::Unchanged);
}

#[test]
fn the_points_depend_on_severity_position_and_rate() {
    assert_eq!(standard_mutation_points(true, 20, 0, false, 1_000_000), (300_000, 100_000));
    assert_eq!(standard_mutation_points(false, 20, 16, false, 1_000_000), (500_000, 300_000));
    assert_eq!(standard_mutation_points(false, 20, 15, true, 1_000_000), (0, 0));
    assert_eq!(standard_mutation_points(false, 20, 15, false, 1_000_000), (0, -100_000));
    assert_eq!(standard_mutation_points(false, 10, 9, true, 800_000), (200_000, 200_000));
    assert_eq!(standard_mutation_points(false, 10, 9, false, 800_000), (200_000, 100_000));
    assert!(in_newer_part(11, 9));
    assert!(!in_newer_part(11, 8));
    assert!(!in_newer_part(10, 9));
}

#[test]
fn random_changes_stay_within_the_power() {
    let mut rng = seeded(2);
    for _ in 0..1000 {
        let delta = random_delta(&mut rng, 500_000);
        assert!(-500_000 < delta && delta < 500_000);
    }
    assert_eq!(random_delta(&mut rng, 0), 0);
}

#[test]
fn each_link_gets_the_mutation_of_its_position() {
    let mut rng = seeded(3);
    let mut genome = Genome::initial_genome(3, 1, 3, false);
    genome.links[0].weight = 4_000_000;
    genome.links[1].weight = 4_000_000;
    genome.links[2].weight = 4_000_000;
    let mutations = vec![LinkMutation::Unchanged, LinkMutation::Reset, LinkMutation::Perturbate];
    change_link_weights(&mut genome, &mut rng, &mutations, 1_000_000);
    assert_eq!(genome.links[0].weight, 4_000_000);
    assert!(genome.links[1].weight.abs() < 1_000_000);
    assert!((genome.links[2].weight - 4_000_000).abs() < 1_000_000);
    assert!(genome.assert_integrity());
}

#[test]
fn a_reset_of_all_weights_leaves_them_within_the_power() {
    let mut rng = seeded(4);
    let mut genome = Genome::initial_genome(10, 3, 10, true);
    for l in genome.links.iter_mut() {
        l.weight = 8_000_000;
    }
    change_link_weights_reset_all(&mut genome, &mut rng, 1_000_000);
    assert_eq!(genome.links.len(), 33);
    assert!(genome.links.iter().all(|l| l.weight.abs() < 1_000_000));
    assert!(genome.links.iter().any(|l| l.weight != genome.links[0].weight));
    assert!(genome.assert_integrity());
}

#[test]
fn perturbing_with_no_chance_changes_nothing() {
    let mut rng = seeded(5);
    let mut genome = Genome::initial_genome(3, 2, 3, true);
    change_link_weights_perturbate_some(&mut genome, &mut rng, 0, 1_000_000);
    assert!(genome.links.iter().all(|l| l.weight == 0));
    change_link_weights_perturbate_some(&mut genome, &mut rng, 1_000_000, 1_000_000);
    assert!(genome.links.iter().all(|l| l.weight.abs() < 1_000_000));
    assert!(genome.links.iter().any(|l| l.weight != 0));
}

#[test]
fn the_standard_mutation_keeps_the_structure() {
    let mut rng = seeded(6);
    let mut genome = Genome::initial_genome(5, 3, 5, true);
    let before = genome.duplicate();
    for _ in 0..50 {
        change_link_weights_standard(&mut genome, &mut rng, 1_000_000, 500_000);
    }
    assert_eq!(genome.nodes, before.nodes);
    assert_eq!(genome.links.len(), before.links.len());
    for (after, old) in genome.links.iter().zip(before.links.iter()) {
        assert_eq!((after.from_id, after.to_id, after.innovation), (old.from_id, old.to_id, old.innovation));
        assert!(-8_000_000 <= after.weight && after.weight <= 8_000_000);
    }
    assert!(genome.links.iter().any(|l| l.weight != 0));
}

#[test]
fn a_genome_without_an_enabled_link_gets_no_node() {
    let mut rng = seeded(7);
    let mut genome = Genome::initial_genome(2, 1, 2, false);
    genome.links[0].enabled = false;
    genome.links[1].enabled = false;
    let mut state = State::new(4, 2);
    new_node(
        &mut genome,
        &mut rng,
        &mut state.node_innovations,
        &mut state.innovation_counter,
        &mut state.node_counter,
    );
    assert_eq!(genome.nodes.len(), 4);
    assert_eq!(genome.links.len(), 2);
    assert_eq!((state.node_counter, state.innovation_counter), (4, 2));
}

#[test]
fn a_new_node_splits_an_enabled_link() {
    let mut rng = seeded(8);
    let mut genome = Genome::initial_genome(2, 1, 2, true);
    genome.links[0].enabled = false;
    genome.links[2].enabled = false;
    let mut state = State::new(4, 3);
    new_node(
        &mut genome,
        &mut rng,
        &mut state.node_innovations,
        &mut state.innovation_counter,
        &mut state.node_counter,
    );
    assert_eq!(genome.nodes.len(), 5);
    assert_eq!(genome.nodes[4], Node { id: 4, node_type: NodeType::Hidden });
    assert!(!genome.links[1].enabled);
    assert_eq!(genome.links[3], link(1, 4, 3, 1_000_000));
    assert_eq!(genome.links[4], link(4, 3, 4, 0));
    assert!(genome.assert_integrity());
}

#[test]
fn a_new_link_never_enters_an_input_or_bias_node() {
    for seed in 0..40 {
        let mut rng = seeded(seed);
        let mut genome = Genome::initial_genome(3, 2, 1, true);
        let mut state = State::new(6, 4);
        new_link(
            &mut genome,
            &mut rng,
            &mut state.link_innovations,
            &mut state.innovation_counter,
            300_000,
            500_000,
            30,
        );
        assert!(genome.assert_integrity());
        assert!(genome.links.len() == 4 || genome.links.len() == 5);
        if genome.links.len() == 5 {
            let added = genome.links[4];
            assert_eq!(added.innovation, 4);
            assert!(added.to_id >= 4);
            assert!(added.enabled);
            assert!(added.weight.abs() < 1_000_000);
            assert_eq!(state.innovation_counter, 5);
        }
    }
}

#[test]
fn without_tries_or_targets_no_link_is_added() {
    let mut rng = seeded(9);
    let mut genome = Genome::initial_genome(3, 2, 1, true);
    let mut state = State::new(6, 4);
    new_link(&mut genome, &mut rng, &mut state.link_innovations, &mut state.innovation_counter, 0, 0, 0);
    assert_eq!(genome.links.len(), 4);
    let mut sources = Genome::initial_genome(3, 0, 0, false);
    new_link(&mut sources, &mut rng, &mut state.link_innovations, &mut state.innovation_counter, 0, 0, 30);
    assert_eq!(sources.links.len(), 0);
    assert_eq!(state.innovation_counter, 4);
}

#[test]
fn a_recurrent_link_closes_a_cycle() {
    let mut found = false;
    for seed in 0..60 {
        let mut rng = seeded(seed);
        let mut genome = Genome::initial_genome(1, 1, 1, false);
        let mut state = State::new(3, 1);
        split_first(&mut genome, &mut state);
        let before = genome.duplicate();
        let mut fresh = State::new(state.node_counter, state.innovation_counter);
        new_link(&mut genome, &mut rng, &mut fresh.link_innovations, &mut fresh.innovation_counter, 1_000_000, 500_000, 30);
        assert!(genome.assert_integrity());
        if genome.links.len() > before.links.len() {
            let added = genome.links.last().unwrap();
            assert!(added.is_recurrent);
            assert!(before.is_new_link_recurrent(added.from_id, added.to_id));
            found = true;
        }
    }
    assert!(found);
}

fn split_first(genome: &mut Genome, state: &mut State) {
    neat::mutation::split_link(
        genome,
        0,
        &mut state.node_innovations,
        &mut state.innovation_counter,
        &mut state.node_counter,
    );
}

#[test]
fn mutations_keep_the_integrity_of_a_genome() {
    let settings = Settings { new_node_prob: 200_000, new_link_prob: 400_000, ..standard_settings() };
    let mut rng = seeded(10);
    let mut genome = Genome::initial_genome(3, 2, 3, true);
    let mut node_counter = max_node_id(&genome) + 1;
    let mut innovation_counter = max_innovation(&genome) + 1;
    for _ in 0..300 {
        // each mutation belongs to a generation of its own
        let mut state = State::new(node_counter, innovation_counter);
        mutate(&mut genome, &settings, &mut rng, &mut state);
        assert!(genome.assert_integrity());
        assert!(state.node_counter <= node_counter + 1);
        assert!(state.innovation_counter <= innovation_counter + 2);
        node_counter = state.node_counter;
        innovation_counter = state.innovation_counter;
        assert!(max_node_id(&genome) < node_counter);
        assert!(max_innovation(&genome) < innovation_counter);
    }
    assert!(genome.nodes.len() > 6);
    assert!(genome.links.len() > 8);
}

#[test]
fn a_certain_node_mutation_splits_a_link() {
    let settings = Settings { new_node_prob: 1_000_000, ..standard_settings() };
    let mut rng = seeded(11);
    let mut genome = Genome::initial_genome(2, 1, 2, true);
    let mut state = State::new(4, 3);
    mutate(&mut genome, &settings, &mut rng, &mut state);
    assert_eq!(genome.nodes.len(), 5);
    assert_eq!(genome.links.len(), 5);
    assert_eq!(genome.links.iter().filter(|l| !l.enabled).count(), 1);
    assert_eq!((state.node_counter, state.innovation_counter), (5, 5));
}

#[test]
fn without_structural_mutations_the_structure_stays() {
    let settings = Settings {
        new_node_prob: 0,
        new_link_prob: 0,
        toggle_enable_prob: 1_000_000,
        change_link_weights_prob: 1_000_000,
        ..standard_settings()
    };
    let mut rng = seeded(12);
    let mut genome = Genome::initial_genome(2, 2, 2, true);
    let before = genome.duplicate();
    let mut state = State::new(5, 6);
    mutate(&mut genome, &settings, &mut rng, &mut state);
    assert_eq!(genome.nodes, before.nodes);
    assert_eq!(genome.links.len(), 6);
    for (after, old) in genome.links.iter().zip(before.links.iter()) {
        assert_eq!((after.from_id, after.to_id, after.innovation), (old.from_id, old.to_id, old.innovation));
    }
    assert_eq!((state.node_counter, state.innovation_counter), (5, 6));
}

#[test]
fn a_certain_self_link_is_added_at_the_first_try() {
    for seed in 0..20 {
        let mut rng = seeded(seed);
        let mut genome = Genome::initial_genome(2, 2, 2, true);
        let mut state = State::new(5, 6);
        new_link(
            &mut genome,
            &mut rng,
            &mut state.link_innovations,
            &mut state.innovation_counter,
            1_000_000,
            1_000_000,
            1,
        );
        assert_eq!(genome.links.len(), 7);
        let added = genome.links[6];
        assert_eq!(added.from_id, added.to_id);
        assert!(added.to_id == 3 || added.to_id == 4);
        assert!(added.is_recurrent && added.enabled);
        assert_eq!(added.innovation, 6);
        assert!(added.weight.abs() < 1_000_000);
        assert_eq!(state.innovation_counter, 7);
        assert!(genome.assert_integrity());
    }
}

#[test]
fn a_share_of_the_power_has_the_given_sign() {
    assert_eq!(share_of(1, 500_000, 3_000_000), 1_500_000);
    assert_eq!(share_of(-1, 500_000, 3_000_000), -1_500_000);
    assert_eq!(share_of(-1, 999_999, 3), -2);
    assert_eq!(share_of(1, 0, 3_000_000), 0);
    assert_eq!(share_of(-1, 250_000, -4_000_000), 1_000_000);
    assert_eq!(share_of(-1, 999_999, i64::MIN), 9_223_362_813_482_738_953);
}

#[test]
fn no_forward_link_fits_a_genome_that_is_fully_linked() {
    for seed in 0..40 {
        let mut rng = seeded(seed);
        let mut genome = Genome::initial_genome(2, 1, 2, true);
        let before = genome.duplicate();
        let mut state = State::new(4, 3);
        new_link(
            &mut genome,
            &mut rng,
            &mut state.link_innovations,
            &mut state.innovation_counter,
            0,
            500_000,
            30,
        );
        assert_eq!(genome.nodes, before.nodes);
        assert_eq!(genome.links, before.links);
        assert_eq!(genome.nodes.len(), 4);
        assert_eq!(genome.links.len(), 3);
        assert_eq!(state.innovation_counter, 3);
        for from_id in 0..4 {
            for to_id in 0..4 {
                for is_recurrent in [false, true] {
                    let key = NewLinkInnovation { from_id, to_id, is_recurrent };
                    assert_eq!(state.link_innovations.get(&key), None);
                }
            }
        }
    }
}

#[test]
fn with_certainty_every_new_link_is_recurrent() {
    let mut added = 0;
    for seed in 0..40 {
        let mut rng = seeded(seed);
        let mut genome = Genome::initial_genome(2, 1, 2, true);
        let before = genome.duplicate();
        let mut state = State::new(4, 3);
        new_link(
            &mut genome,
            &mut rng,
            &mut state.link_innovations,
            &mut state.innovation_counter,
            1_000_000,
            0,
            30,
        );
        if genome.links.len() > 3 {
            let link = genome.links.last().unwrap();
            assert!(link.is_recurrent);
            assert!(before.is_new_link_recurrent(link.from_id, link.to_id));
            assert_eq!((link.from_id, link.to_id), (3, 3));
            added += 1;
        }
    }
    assert!(added > 0);
}

#[test]
fn without_structural_mutation_weights_move_within_the_power() {
    let mut moved = false;
    for seed in 0..40 {
        let mut rng = seeded(seed);
        let mut genome = Genome::initial_genome(2, 1, 2, true);
        for (i, link) in genome.links.iter_mut().enumerate() {
            link.weight = 3_000_000 + i as i64;
        }
        let before = genome.duplicate();
        let settings = Settings {
            new_node_prob: 0,
            new_link_prob: 0,
            toggle_enable_prob: 0,
            change_link_weights_prob: 1_000_000,
            change_link_weights_power: 200_000,
            ..standard_settings()
        };
        let mut state = State::new(4, 3);
        mutate(&mut genome, &settings, &mut rng, &mut state);
        assert_eq!(genome.nodes, before.nodes);
        assert_eq!(genome.links.len(), 3);
        for (after, old) in genome.links.iter().zip(before.links.iter()) {
            assert_eq!(
                (after.from_id, after.to_id, after.innovation, after.enabled),
                (old.from_id, old.to_id, old.innovation, old.enabled)
            );
            let change = (after.weight - old.weight).abs();
            let replaced = after.weight.abs() <= 200_000;
            assert!(change <= 200_000 || replaced);
            moved = moved || change > 0;
        }
        assert_eq!((state.node_counter, state.innovation_counter), (4, 3));
    }
    assert!(moved);
}

#[test]
fn a_toggle_changes_one_link_at_most() {
    let mut toggled = 0;
    for seed in 0..40 {
        let mut rng = seeded(seed);
        let mut genome = Genome::initial_genome(2, 2, 2, true);
        let before = genome.duplicate();
        let settings = Settings {
            new_node_prob: 0,
            new_link_prob: 0,
            toggle_enable_prob: 1_000_000,
            change_link_weights_prob: 0,
            ..standard_settings()
        };
        let mut state = State::new(5, 6);
        mutate(&mut genome, &settings, &mut rng, &mut state);
        let changed = genome
            .links
            .iter()
            .zip(before.links.iter())
            .filter(|(after, old)| after != old)
            .count();
        assert!(changed <= 1);
        toggled += changed;
        for (after, old) in genome.links.iter().zip(before.links.iter()) {
            assert_eq!(after.weight, old.weight);
        }
    }
    assert!(toggled > 0);
}
