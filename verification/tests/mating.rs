use neat::genes::{Genome, Link, Node, NodeType};
use neat::mating::{inherit, multipoint};
use rand::{SeedableRng, StdRng};

fn link(from_id: usize, to_id: usize, innovation: u64, weight: i64, enabled: bool) -> Link {
    Link { from_id, to_id, enabled, innovation, weight, is_recurrent: false }
}

fn nodes() -> Vec<Node> {
    vec![
        Node { id: 0, node_type: NodeType::Input },
        Node { id: 1, node_type: NodeType::Output },
        Node { id: 2, node_type: NodeType::Hidden },
        Node { id: 3, node_type: NodeType::Hidden },
    ]
}

#[test]
fn a_matching_link_comes_from_either_parent() {
    let a = link(0, 1, 4, 100, true);
    let b = link(0, 1, 4, 200, true);
    assert_eq!(inherit(&a, &b, true, false), a);
    assert_eq!(inherit(&a, &b, false, false), b);
    assert_eq!(inherit(&a, &b, true, true), a);
    assert_eq!(inherit(&a, &b, false, true), b);
}

#[test]
fn a_link_disabled_in_a_parent_may_be_disabled() {
    let a = link(0, 1, 4, 100, true);
    let b = link(0, 1, 4, 200, false);
    assert_eq!(inherit(&a, &b, true, true), link(0, 1, 4, 100, false));
    assert_eq!(inherit(&a, &b, true, false), a);
    assert_eq!(inherit(&a, &b, false, false), b);
    assert_eq!(inherit(&a, &b, false, true), b);
    assert_eq!(inherit(&b, &a, false, true), link(0, 1, 4, 100, false));
}

#[test]
fn the_offspring_has_the_links_of_the_fitter_parent() {
    let a = Genome {
        nodes: nodes(),
        links: vec![link(0, 1, 0, 100, true), link(0, 2, 1, 110, true), link(2, 1, 3, 130, true)],
    };
    let b = Genome {
        nodes: nodes(),
        links: vec![
            link(0, 1, 0, 200, true),
            link(0, 3, 2, 220, true),
            link(2, 1, 3, 230, true),
            link(3, 1, 5, 250, true),
        ],
    };
    let mut from_a = 0;
    let mut from_b = 0;
    for seed in 0..50 {
        let mut rng = StdRng::from_seed(&[seed as usize][..]);
        let child = multipoint(&mut rng, &a, &b);
        assert_eq!(child.nodes, a.nodes);
        assert_eq!(child.links.len(), 3);
        assert!(child.links[0] == a.links[0] || child.links[0] == b.links[0]);
        assert_eq!(child.links[1], a.links[1]);
        assert!(child.links[2] == a.links[2] || child.links[2] == b.links[2]);
        assert!(child.assert_integrity());
        if child.links[0] == a.links[0] {
            from_a += 1;
        } else {
            from_b += 1;
        }
    }
    assert!(from_a > 0 && from_b > 0);
}

#[test]
fn links_with_one_innovation_between_other_nodes_do_not_match() {
    let a = Genome { nodes: nodes(), links: vec![link(0, 1, 0, 100, true), link(0, 2, 1, 110, true)] };
    let b = Genome { nodes: nodes(), links: vec![link(0, 1, 0, 200, true), link(0, 3, 1, 210, true)] };
    for seed in 0..20 {
        let mut rng = StdRng::from_seed(&[seed as usize, 5][..]);
        let child = multipoint(&mut rng, &a, &b);
        assert_eq!(child.links[1], a.links[1]);
        assert!(child.assert_integrity());
    }
}

#[test]
fn a_disabled_parent_link_disables_most_offspring_links() {
    let a = Genome { nodes: nodes(), links: vec![link(0, 1, 0, 100, false)] };
    let b = Genome { nodes: nodes(), links: vec![link(0, 1, 0, 100, true)] };
    let mut disabled = 0;
    for seed in 0..400 {
        let mut rng = StdRng::from_seed(&[seed as usize, 9][..]);
        let child = multipoint(&mut rng, &a, &b);
        if !child.links[0].enabled {
            disabled += 1;
        }
    }
    // three quarters, and half of the rest
    assert!(300 < disabled && disabled < 400);
}

#[test]
fn mating_with_an_empty_genome_copies_the_fitter_parent() {
    let a = Genome { nodes: nodes(), links: vec![link(0, 1, 0, 100, true), link(0, 2, 1, 110, false)] };
    let empty = Genome { nodes: nodes(), links: vec![] };
    let mut rng = StdRng::from_seed(&[1usize][..]);
    let child = multipoint(&mut rng, &a, &empty);
    assert_eq!(child.links, a.links);
    let none = multipoint(&mut rng, &empty, &a);
    assert_eq!(none.links.len(), 0);
    assert_eq!(none.nodes, a.nodes);
}
