//! Crossover: recombination of two genomes aligned by innovation number.

use crate::genes::{
    contains_link, contains_node, find_innovation, innovations_increasing, lemma_find_innovation,
    lemma_innovation_absent, lemma_latest_goes_last, receptive_node, weights_bounded, Genome, Link,
};
use crate::random::{chance, coin};
use vstd::prelude::*;

verus! {

/// The probability, in millionths, that a link which either parent holds
/// disabled is disabled in the offspring.
pub const DISABLE_PROB: u32 = 750_000;

/// The two links carry the same innovation number and join the same nodes.
pub open spec fn matching(link_a: Link, link_b: Link) -> bool {
    link_a.innovation == link_b.innovation && link_a.from_id == link_b.from_id && link_a.to_id
        == link_b.to_id
}

/// The link that an offspring gets where both parents hold a link with the
/// same innovation number: that of the first parent or that of the second,
/// disabled where `disable` is set and either parent holds its link
/// disabled.
pub open spec fn inherited(link_a: Link, link_b: Link, from_first: bool, disable: bool) -> Link {
    let chosen = if from_first {
        link_a
    } else {
        link_b
    };
    if (!link_a.enabled || !link_b.enabled) && disable {
        Link {
            from_id: chosen.from_id,
            to_id: chosen.to_id,
            enabled: false,
            innovation: chosen.innovation,
            weight: chosen.weight,
            is_recurrent: chosen.is_recurrent,
        }
    } else {
        chosen
    }
}

/// The link that an offspring gets where both parents hold a link with the
/// same innovation number.
pub fn inherit(link_a: &Link, link_b: &Link, from_first: bool, disable: bool) -> (link: Link)
    ensures
        link == inherited(*link_a, *link_b, from_first, disable),
{
    let chosen = if from_first {
        *link_a
    } else {
        *link_b
    };
    if (!link_a.enabled || !link_b.enabled) && disable {
        Link {
            from_id: chosen.from_id,
            to_id: chosen.to_id,
            enabled: false,
            innovation: chosen.innovation,
            weight: chosen.weight,
            is_recurrent: chosen.is_recurrent,
        }
    } else {
        chosen
    }
}

/// `child` is what an offspring may get for the link `link_a` of the fitter
/// parent: one inherited from `link_a` and the link of the other parent `b`
/// that matches it, or the link itself where `b` holds no such link.
pub open spec fn descends_from(link_a: Link, b: Seq<Link>, child: Link) -> bool {
    match find_innovation(b, link_a.innovation, 0) {
        None => child == link_a,
        Some(link_b) => if matching(link_a, link_b) {
            exists|from_first: bool, disable: bool|
                child == #[trigger] inherited(link_a, link_b, from_first, disable)
        } else {
            child == link_a
        },
    }
}

/// Mates two genomes by aligning their links by innovation number;
/// `genome_a` is the fitter parent. The offspring has the nodes of
/// `genome_a` and one link for each link of `genome_a`, in the same order:
/// where `genome_b` holds a link with the same innovation number, either of
/// the two is taken at random, and is disabled with the probability of
/// three quarters where either parent holds it disabled. Links that only
/// `genome_b` holds are left out.
pub fn multipoint(rng: &mut rand::StdRng, genome_a: &Genome, genome_b: &Genome) -> (offspring:
    Genome)
    requires
        genome_a.wf(),
        innovations_increasing(genome_b.links@),
        weights_bounded(genome_b.links@),
    ensures
        offspring.wf(),
        offspring.nodes@ == genome_a.nodes@,
        offspring.links@.len() == genome_a.links@.len(),
        forall|i: int|
            0 <= i < genome_a.links@.len() ==> descends_from(
                genome_a.links@[i],
                genome_b.links@,
                #[trigger] offspring.links@[i],
            ),
        forall|i: int|
            0 <= i < genome_a.links@.len() ==> (#[trigger] offspring.links@[i]).from_id
                == genome_a.links@[i].from_id && offspring.links@[i].to_id
                == genome_a.links@[i].to_id && offspring.links@[i].innovation
                == genome_a.links@[i].innovation,
{
    let ghost a = genome_a.links@;
    let ghost b = genome_b.links@;
    let mut i: usize = 0;
    let mut j: usize = 0;
    let mut offspring = Genome { nodes: Vec::new(), links: Vec::new() };
    let mut n: usize = 0;
    while n < genome_a.nodes.len()
        invariant
            n <= genome_a.nodes@.len(),
            offspring.links@.len() == 0,
            offspring.nodes@ == genome_a.nodes@.take(n as int),
        decreases genome_a.nodes@.len() - n,
    {
        proof {
            genome_a.nodes@.lemma_take_succ_push(n as int);
        }
        offspring.nodes.push(genome_a.nodes[n]);
        n += 1;
    }
    assert(genome_a.nodes@.take(n as int) == genome_a.nodes@);
    while i < genome_a.links.len()
        invariant
            a == genome_a.links@,
            b == genome_b.links@,
            genome_a.wf(),
            innovations_increasing(b),
            weights_bounded(b),
            i <= a.len(),
            j <= b.len(),
            j < b.len() ==> forall|x: int|
                0 <= x < i ==> (#[trigger] a[x]).innovation < b[j as int].innovation,
            i < a.len() ==> forall|y: int|
                0 <= y < j ==> (#[trigger] b[y]).innovation < a[i as int].innovation,
            offspring.wf(),
            offspring.nodes@ == genome_a.nodes@,
            offspring.links@.len() == i,
            forall|k: int|
                0 <= k < i ==> descends_from(a[k], b, #[trigger] offspring.links@[k]),
            forall|k: int|
                0 <= k < i ==> (#[trigger] offspring.links@[k]).from_id == a[k].from_id
                    && offspring.links@[k].to_id == a[k].to_id && offspring.links@[k].innovation
                    == a[k].innovation,
        decreases (a.len() - i) + (b.len() - j),
    {
        let link_a = &genome_a.links[i];
        let ghost at = i as int;
        let choice: Option<Link> = if j == genome_b.links.len() {
            proof {
                lemma_innovation_absent(b, b.len() as int, a[at].innovation);
                lemma_find_innovation(b, a[at].innovation, 0);
            }
            i += 1;
            Some(*link_a)
        } else {
            let link_b = &genome_b.links[j];
            if link_a.innovation == link_b.innovation {
                proof {
                    lemma_find_innovation(b, a[at].innovation, 0);
                    assert(find_innovation(b, a[at].innovation, 0) == Some(b[j as int]));
                    assert forall|x: int| 0 <= x < i + 1 && j + 1 < b.len() implies (
                    #[trigger] a[x]).innovation < b[j + 1].innovation by {
                        assert(b[j as int].innovation < b[j + 1].innovation);
                    }
                    assert forall|y: int| 0 <= y < j + 1 && i + 1 < a.len() implies (
                    #[trigger] b[y]).innovation < a[i + 1].innovation by {
                        assert(a[at].innovation < a[i + 1].innovation);
                    }
                }
                i += 1;
                j += 1;
                if link_a.from_id == link_b.from_id && link_a.to_id == link_b.to_id {
                    let from_first = coin(rng);
                    let disable = if !link_a.enabled || !link_b.enabled {
                        chance(rng, DISABLE_PROB)
                    } else {
                        false
                    };
                    Some(inherit(link_a, link_b, from_first, disable))
                } else {
                    Some(*link_a)
                }
            } else if link_a.innovation < link_b.innovation {
                proof {
                    lemma_innovation_absent(b, j as int, a[at].innovation);
                    lemma_find_innovation(b, a[at].innovation, 0);
                    assert forall|y: int| 0 <= y < j && i + 1 < a.len() implies (
                    #[trigger] b[y]).innovation < a[i + 1].innovation by {
                        assert(a[at].innovation < a[i + 1].innovation);
                    }
                }
                i += 1;
                Some(*link_a)
            } else {
                proof {
                    assert forall|x: int| 0 <= x < i && j + 1 < b.len() implies (
                    #[trigger] a[x]).innovation < b[j + 1].innovation by {
                        assert(b[j as int].innovation < b[j + 1].innovation);
                    }
                }
                j += 1;
                None
            }
        };
        match choice {
            Some(gene) => {
                proof {
                    assert(descends_from(a[at], b, gene));
                    assert(gene.from_id == a[at].from_id && gene.to_id == a[at].to_id
                        && gene.innovation == a[at].innovation);
                    assert(contains_node(genome_a.nodes@, a[at].from_id));
                    assert(contains_node(genome_a.nodes@, a[at].to_id));
                    assert(receptive_node(genome_a.nodes@, a[at].to_id));
                    assert(!contains_link(offspring.links@, gene.from_id, gene.to_id)) by {
                        assert forall|k: int| 0 <= k < offspring.links@.len() implies !((
                        #[trigger] offspring.links@[k]).from_id == gene.from_id
                            && offspring.links@[k].to_id == gene.to_id) by {
                            assert(a[k].from_id == offspring.links@[k].from_id);
                            assert(!(a[k].from_id == a[at].from_id && a[k].to_id == a[at].to_id));
                        }
                    }
                    assert forall|k: int| 0 <= k < offspring.links@.len() implies (
                    #[trigger] offspring.links@[k]).innovation < gene.innovation by {
                        assert(a[k].innovation < a[at].innovation);
                    }
                    lemma_latest_goes_last(offspring.links@, gene, 0);
                    assert(-crate::genes::WEIGHT_LIMIT <= gene.weight <= crate::genes::WEIGHT_LIMIT);
                }
                offspring.add_link(gene);
            },
            None => {},
        }
    }
    offspring
}

} // verus!
