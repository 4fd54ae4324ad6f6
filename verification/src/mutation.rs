//! Mutation of genomes: weight changes and structural growth, with a
//! registry that gives equal structural mutations of one generation equal
//! historical markings.

use crate::fixed::{add_saturating, clamp, limit, multiply, product, saturate, ONE};
use crate::genes::{
    contains_innovation, contains_link, contains_node, endpoints_present, outgoing, reaches,
    receptive, receptive_node, with_link, Genome, Link, Node, NodeId, NodeType, WEIGHT_LIMIT,
};
use crate::random::{chance, coin, fraction, pick, rand_pos_neg};
use vstd::prelude::*;

verus! {

/// A probability as a fixed-point number in millionths.
pub type Prob = u32;

/// The tunables of mutation and reproduction.
#[derive(Clone, Copy, PartialEq, Eq, Debug, Structural)]
pub struct Settings {
    pub new_node_prob: Prob,
    pub new_link_prob: Prob,
    pub change_link_weights_prob: Prob,
    pub change_link_weights_power: i64,
    pub uniform_perturbation_prob: Prob,
    pub recurrent_link_prob: Prob,
    pub self_link_prob: Prob,
    pub toggle_enable_prob: Prob,
    pub mutate_only_prob: Prob,
    pub mutate_after_mating_prob: Prob,
    pub no_crossover_prob: Prob,
    pub interspecies_mating_prob: Prob,
}

/// The default tunables, as a value for contracts.
pub open spec fn default_settings() -> Settings {
    Settings {
        new_node_prob: 10_000,
        new_link_prob: 300_000,
        change_link_weights_prob: 800_000,
        change_link_weights_power: 500_000,
        uniform_perturbation_prob: 900_000,
        recurrent_link_prob: 300_000,
        self_link_prob: 500_000,
        toggle_enable_prob: 50_000,
        mutate_only_prob: 250_000,
        mutate_after_mating_prob: 800_000,
        no_crossover_prob: 250_000,
        interspecies_mating_prob: 1_000,
    }
}

/// The default tunables.
pub fn standard_settings() -> (settings: Settings)
    ensures
        settings == (Settings {
            new_node_prob: 10_000,
            new_link_prob: 300_000,
            change_link_weights_prob: 800_000,
            change_link_weights_power: 500_000,
            uniform_perturbation_prob: 900_000,
            recurrent_link_prob: 300_000,
            self_link_prob: 500_000,
            toggle_enable_prob: 50_000,
            mutate_only_prob: 250_000,
            mutate_after_mating_prob: 800_000,
            no_crossover_prob: 250_000,
            interspecies_mating_prob: 1_000,
        }),
{
    Settings {
        new_node_prob: 10_000,
        new_link_prob: 300_000,
        change_link_weights_prob: 800_000,
        change_link_weights_power: 500_000,
        uniform_perturbation_prob: 900_000,
        recurrent_link_prob: 300_000,
        self_link_prob: 500_000,
        toggle_enable_prob: 50_000,
        mutate_only_prob: 250_000,
        mutate_after_mating_prob: 800_000,
        no_crossover_prob: 250_000,
        interspecies_mating_prob: 1_000,
    }
}

/// The nodes that a new link joined, and whether it was recurrent.
#[derive(Clone, Copy, PartialEq, Eq, Hash, Debug, Structural)]
pub struct NewLinkInnovation {
    pub from_id: NodeId,
    pub to_id: NodeId,
    pub is_recurrent: bool,
}

/// The link that was split to put a new node in between.
#[derive(Clone, Copy, PartialEq, Eq, Hash, Debug, Structural)]
pub struct NewNodeInnovation {
    pub from_id: NodeId,
    pub to_id: NodeId,
    pub old_innovation: u64,
}

/// The map that the first `n` recorded link innovations make; a later
/// record of a key replaces an earlier one.
pub open spec fn link_records(entries: Seq<(NewLinkInnovation, u64)>, n: int) -> Map<
    NewLinkInnovation,
    u64,
>
    decreases n,
{
    if n <= 0 {
        Map::empty()
    } else {
        link_records(entries, n - 1).insert(entries[n - 1].0, entries[n - 1].1)
    }
}

/// The map that the first `n` recorded node innovations make; a later
/// record of a key replaces an earlier one.
pub open spec fn node_records(
    entries: Seq<(NewNodeInnovation, (NodeId, u64, u64))>,
    n: int,
) -> Map<NewNodeInnovation, (NodeId, u64, u64)>
    decreases n,
{
    if n <= 0 {
        Map::empty()
    } else {
        node_records(entries, n - 1).insert(entries[n - 1].0, entries[n - 1].1)
    }
}

/// For each new link of this generation, the innovation number it got.
pub struct NewLinkInnovations {
    entries: Vec<(NewLinkInnovation, u64)>,
}

/// For each link split in this generation, the identity of the new node and
/// the innovation numbers of the link into it and the link out of it.
pub struct NewNodeInnovations {
    entries: Vec<(NewNodeInnovation, (NodeId, u64, u64))>,
}

impl View for NewLinkInnovations {
    type V = Map<NewLinkInnovation, u64>;

    closed spec fn view(&self) -> Map<NewLinkInnovation, u64> {
        link_records(self.entries@, self.entries@.len() as int)
    }
}

impl View for NewNodeInnovations {
    type V = Map<NewNodeInnovation, (NodeId, u64, u64)>;

    closed spec fn view(&self) -> Map<NewNodeInnovation, (NodeId, u64, u64)> {
        node_records(self.entries@, self.entries@.len() as int)
    }
}

impl NewLinkInnovations {
    /// A registry without records.
    pub fn new() -> (registry: Self)
        ensures
            registry@ == Map::<NewLinkInnovation, u64>::empty(),
    {
        NewLinkInnovations { entries: Vec::new() }
    }

    /// The innovation number recorded for `key`, if any.
    pub fn get(&self, key: &NewLinkInnovation) -> (found: Option<u64>)
        ensures
            found == if self@.contains_key(*key) {
                Some(self@[*key])
            } else {
                None::<u64>
            },
    {
        let mut n: usize = self.entries.len();
        while n > 0
            invariant
                n <= self.entries@.len(),
                self@.contains_key(*key) == link_records(self.entries@, n as int).contains_key(
                    *key,
                ),
                self@.contains_key(*key) ==> self@[*key] == link_records(
                    self.entries@,
                    n as int,
                )[*key],
            decreases n,
        {
            n -= 1;
            let entry = &self.entries[n];
            if entry.0.from_id == key.from_id && entry.0.to_id == key.to_id && entry.0.is_recurrent
                == key.is_recurrent {
                return Some(entry.1);
            }
        }
        None
    }

    /// Records `value` for `key`.
    pub fn insert(&mut self, key: NewLinkInnovation, value: u64)
        ensures
            final(self)@ == old(self)@.insert(key, value),
    {
        self.entries.push((key, value));
        assert(self.entries@.drop_last() == old(self).entries@);
        assert(link_records(self.entries@, self.entries@.len() - 1) == link_records(
            old(self).entries@,
            old(self).entries@.len() as int,
        )) by {
            lemma_link_records_prefix(self.entries@, old(self).entries@, old(self).entries@.len() as int);
        }
    }
}

/// Records depend only on the entries counted.
pub proof fn lemma_link_records_prefix(
    a: Seq<(NewLinkInnovation, u64)>,
    b: Seq<(NewLinkInnovation, u64)>,
    n: int,
)
    requires
        0 <= n <= a.len(),
        n <= b.len(),
        forall|k: int| 0 <= k < n ==> a[k] == b[k],
    ensures
        link_records(a, n) == link_records(b, n),
    decreases n,
{
    if n > 0 {
        lemma_link_records_prefix(a, b, n - 1);
    }
}

/// Records depend only on the entries counted.
pub proof fn lemma_node_records_prefix(
    a: Seq<(NewNodeInnovation, (NodeId, u64, u64))>,
    b: Seq<(NewNodeInnovation, (NodeId, u64, u64))>,
    n: int,
)
    requires
        0 <= n <= a.len(),
        n <= b.len(),
        forall|k: int| 0 <= k < n ==> a[k] == b[k],
    ensures
        node_records(a, n) == node_records(b, n),
    decreases n,
{
    if n > 0 {
        lemma_node_records_prefix(a, b, n - 1);
    }
}

impl NewNodeInnovations {
    /// A registry without records.
    pub fn new() -> (registry: Self)
        ensures
            registry@ == Map::<NewNodeInnovation, (NodeId, u64, u64)>::empty(),
    {
        NewNodeInnovations { entries: Vec::new() }
    }

    /// The identities recorded for `key`, if any.
    pub fn get(&self, key: &NewNodeInnovation) -> (found: Option<(NodeId, u64, u64)>)
        ensures
            found == if self@.contains_key(*key) {
                Some(self@[*key])
            } else {
                None::<(NodeId, u64, u64)>
            },
    {
        let mut n: usize = self.entries.len();
        while n > 0
            invariant
                n <= self.entries@.len(),
                self@.contains_key(*key) == node_records(self.entries@, n as int).contains_key(
                    *key,
                ),
                self@.contains_key(*key) ==> self@[*key] == node_records(
                    self.entries@,
                    n as int,
                )[*key],
            decreases n,
        {
            n -= 1;
            let entry = &self.entries[n];
            if entry.0.from_id == key.from_id && entry.0.to_id == key.to_id
                && entry.0.old_innovation == key.old_innovation {
                return Some(entry.1);
            }
        }
        None
    }

    /// Records `value` for `key`.
    pub fn insert(&mut self, key: NewNodeInnovation, value: (NodeId, u64, u64))
        ensures
            final(self)@ == old(self)@.insert(key, value),
    {
        self.entries.push((key, value));
        assert(self.entries@.drop_last() == old(self).entries@);
        assert(node_records(self.entries@, self.entries@.len() - 1) == node_records(
            old(self).entries@,
            old(self).entries@.len() as int,
        )) by {
            lemma_node_records_prefix(self.entries@, old(self).entries@, old(self).entries@.len() as int);
        }
    }
}

/// What a link's weight may undergo in a weight mutation.
#[derive(Clone, Copy, PartialEq, Eq, Debug, Structural)]
pub enum LinkMutation {
    Perturbate,
    Reset,
    Unchanged,
}


/// The state of a population that is needed while mutating: the counters
/// that give out node identities and innovation numbers, and the structural
/// mutations recorded in this generation.
pub struct State {
    pub node_counter: usize,
    pub innovation_counter: u64,
    pub link_innovations: NewLinkInnovations,
    pub node_innovations: NewNodeInnovations,
}

/// The counter lies above every node identity of the genome.
pub open spec fn nodes_below(node_counter: usize, genome: &Genome) -> bool {
    forall|i: int| 0 <= i < genome.nodes@.len() ==> (#[trigger] genome.nodes@[i]).id < node_counter
}

/// The counter lies above every innovation number of the genome.
pub open spec fn innovations_below(innovation_counter: u64, genome: &Genome) -> bool {
    forall|i: int|
        0 <= i < genome.links@.len() ==> (#[trigger] genome.links@[i]).innovation
            < innovation_counter
}

/// The counters lie above every node identity and every innovation number
/// of the genome.
pub open spec fn counters_cover(
    node_counter: usize,
    innovation_counter: u64,
    genome: &Genome,
) -> bool {
    nodes_below(node_counter, genome) && innovations_below(innovation_counter, genome)
}

/// No recorded split gave out an identity or an innovation number that
/// occurs in the genome, and each gave out two different innovation numbers.
pub open spec fn splits_unused(
    records: Map<NewNodeInnovation, (NodeId, u64, u64)>,
    genome: &Genome,
) -> bool {
    forall|k: NewNodeInnovation| #[trigger]
        records.contains_key(k) ==> !contains_node(genome.nodes@, records[k].0)
            && !contains_innovation(genome.links@, records[k].1) && !contains_innovation(
            genome.links@,
            records[k].2,
        ) && records[k].1 != records[k].2
}

/// No recorded new link got an innovation number that occurs in the genome.
pub open spec fn joins_unused(records: Map<NewLinkInnovation, u64>, genome: &Genome) -> bool {
    forall|k: NewLinkInnovation| #[trigger]
        records.contains_key(k) ==> !contains_innovation(genome.links@, records[k])
}

/// Every recorded split gave out what lies below the counters.
pub open spec fn splits_below(
    records: Map<NewNodeInnovation, (NodeId, u64, u64)>,
    node_counter: usize,
    innovation_counter: u64,
) -> bool {
    forall|k: NewNodeInnovation| #[trigger]
        records.contains_key(k) ==> records[k].0 < node_counter && records[k].1
            < innovation_counter && records[k].2 < innovation_counter
}

/// Every recorded new link got an innovation number below the counter.
pub open spec fn joins_below(records: Map<NewLinkInnovation, u64>, innovation_counter: u64) -> bool {
    forall|k: NewLinkInnovation| #[trigger]
        records.contains_key(k) ==> records[k] < innovation_counter
}

/// The identities for a split: those recorded for it, or else the next ones
/// that the counters give out.
pub open spec fn split_ids(
    records: Map<NewNodeInnovation, (NodeId, u64, u64)>,
    key: NewNodeInnovation,
    node_counter: usize,
    innovation_counter: u64,
) -> (NodeId, u64, u64) {
    if records.contains_key(key) {
        records[key]
    } else {
        (node_counter, innovation_counter, (innovation_counter + 1) as u64)
    }
}

/// The innovation number for a new link: the one recorded for it, or else
/// the next one that the counter gives out.
pub open spec fn join_id(
    records: Map<NewLinkInnovation, u64>,
    key: NewLinkInnovation,
    innovation_counter: u64,
) -> u64 {
    if records.contains_key(key) {
        records[key]
    } else {
        innovation_counter
    }
}

/// The registry key of the split of a link.
pub open spec fn split_key(link: Link) -> NewNodeInnovation {
    NewNodeInnovation {
        from_id: link.from_id,
        to_id: link.to_id,
        old_innovation: link.innovation,
    }
}

/// The link list after the link at `index` has been split through the node
/// `ids.0`: that link is disabled; a link into the new node with the weight
/// one and the old link's recurrence, and a link out of it with the old
/// weight, not recurrent, are inserted.
pub open spec fn split_links(links: Seq<Link>, index: int, ids: (NodeId, u64, u64)) -> Seq<Link> {
    let link = links[index];
    let disabled = Link {
        from_id: link.from_id,
        to_id: link.to_id,
        enabled: false,
        innovation: link.innovation,
        weight: link.weight,
        is_recurrent: link.is_recurrent,
    };
    let first = Link {
        from_id: link.from_id,
        to_id: ids.0,
        enabled: true,
        innovation: ids.1,
        weight: ONE,
        is_recurrent: link.is_recurrent,
    };
    let second = Link {
        from_id: ids.0,
        to_id: link.to_id,
        enabled: true,
        innovation: ids.2,
        weight: link.weight,
        is_recurrent: false,
    };
    with_link(with_link(links.update(index, disabled), first), second)
}

/// `after` and the registry and counters beside it are what the split of
/// the link at `index` makes of `before` and those beside it.
pub open spec fn is_split(
    before: &Genome,
    index: int,
    records_before: Map<NewNodeInnovation, (NodeId, u64, u64)>,
    node_counter_before: usize,
    innovation_counter_before: u64,
    after: &Genome,
    records_after: Map<NewNodeInnovation, (NodeId, u64, u64)>,
    node_counter_after: usize,
    innovation_counter_after: u64,
) -> bool {
    let key = split_key(before.links@[index]);
    let ids = split_ids(records_before, key, node_counter_before, innovation_counter_before);
    &&& after.nodes@ == before.nodes@.push(Node { id: ids.0, node_type: NodeType::Hidden })
    &&& after.links@ == split_links(before.links@, index, ids)
    &&& records_after == records_before.insert(key, ids)
    &&& if records_before.contains_key(key) {
        node_counter_after == node_counter_before && innovation_counter_after
            == innovation_counter_before
    } else {
        node_counter_after == node_counter_before + 1 && innovation_counter_after
            == innovation_counter_before + 2
    }
}

/// A split that is on record is made with the node identity and the two
/// innovation numbers of the record, and leaves the registry and the
/// counters as they were.
pub proof fn lemma_recorded_split_is_reused(
    before: &Genome,
    index: int,
    records_before: Map<NewNodeInnovation, (NodeId, u64, u64)>,
    node_counter_before: usize,
    innovation_counter_before: u64,
    after: &Genome,
    records_after: Map<NewNodeInnovation, (NodeId, u64, u64)>,
    node_counter_after: usize,
    innovation_counter_after: u64,
)
    requires
        is_split(
            before,
            index,
            records_before,
            node_counter_before,
            innovation_counter_before,
            after,
            records_after,
            node_counter_after,
            innovation_counter_after,
        ),
        records_before.contains_key(split_key(before.links@[index])),
    ensures
        records_after == records_before,
        node_counter_after == node_counter_before,
        innovation_counter_after == innovation_counter_before,
        after.nodes@ == before.nodes@.push(
            Node {
                id: records_before[split_key(before.links@[index])].0,
                node_type: NodeType::Hidden,
            },
        ),
        after.links@ == split_links(
            before.links@,
            index,
            records_before[split_key(before.links@[index])],
        ),
{
    let key = split_key(before.links@[index]);
    assert(records_before.insert(key, records_before[key]) =~= records_before);
}

/// Splits the link at `index` through a new hidden node. Where this split
/// was recorded earlier in the generation, the node's identity and the two
/// innovation numbers are those of the record; otherwise the counters give
/// out new ones and the split is recorded.
pub fn split_link(
    genome: &mut Genome,
    index: usize,
    innovations: &mut NewNodeInnovations,
    innovation_counter: &mut u64,
    node_counter: &mut usize,
)
    requires
        old(genome).wf(),
        index < old(genome).links@.len(),
        counters_cover(*old(node_counter), *old(innovation_counter), old(genome)),
        splits_unused(old(innovations)@, old(genome)),
        splits_below(old(innovations)@, *old(node_counter), *old(innovation_counter)),
        *old(node_counter) < usize::MAX,
        *old(innovation_counter) + 2 <= u64::MAX,
    ensures
        is_split(
            old(genome),
            index as int,
            old(innovations)@,
            *old(node_counter),
            *old(innovation_counter),
            final(genome),
            final(innovations)@,
            *final(node_counter),
            *final(innovation_counter),
        ),
        final(genome).wf(),
        splits_below(final(innovations)@, *final(node_counter), *final(innovation_counter)),
        counters_cover(*final(node_counter), *final(innovation_counter), final(genome)),
{
    let link = genome.links[index];
    let ghost nodes0 = genome.nodes@;
    let ghost links0 = genome.links@;
    genome.links.set(
        index,
        Link {
            from_id: link.from_id,
            to_id: link.to_id,
            enabled: false,
            innovation: link.innovation,
            weight: link.weight,
            is_recurrent: link.is_recurrent,
        },
    );
    let ghost links1 = genome.links@;
    proof {
        assert forall|i: int| 0 <= i < links1.len() implies (#[trigger] links1[i]).from_id
            == links0[i].from_id && links1[i].to_id == links0[i].to_id && links1[i].innovation
            == links0[i].innovation && links1[i].weight == links0[i].weight by {}
        assert(genome.wf());
        assert forall|x: u64| contains_innovation(links1, x) implies contains_innovation(
            links0,
            x,
        ) by {
            let k = choose|k: int| 0 <= k < links1.len() && (#[trigger] links1[k]).innovation == x;
            assert(links0[k].innovation == x);
        }
        assert forall|f: NodeId, t: NodeId| contains_link(links1, f, t) implies contains_link(
            links0,
            f,
            t,
        ) by {
            let k = choose|k: int|
                0 <= k < links1.len() && (#[trigger] links1[k]).from_id == f && links1[k].to_id
                    == t;
            assert(links0[k].from_id == f && links0[k].to_id == t);
        }
    }
    let key = NewNodeInnovation {
        from_id: link.from_id,
        to_id: link.to_id,
        old_innovation: link.innovation,
    };
    let ids = match innovations.get(&key) {
        Some(ids) => {
            assert(innovations@ =~= old(innovations)@.insert(key, ids));
            ids
        },
        None => {
            let ids = (*node_counter, *innovation_counter, *innovation_counter + 1);
            *node_counter += 1;
            *innovation_counter += 2;
            innovations.insert(key, ids);
            ids
        },
    };
    assert(ids == split_ids(old(innovations)@, key, *old(node_counter), *old(innovation_counter)));
    assert(!contains_node(nodes0, ids.0));
    assert(!contains_innovation(links0, ids.1));
    assert(!contains_innovation(links0, ids.2));
    assert(ids.1 != ids.2);
    let first = Link {
        from_id: link.from_id,
        to_id: ids.0,
        enabled: true,
        innovation: ids.1,
        weight: ONE,
        is_recurrent: link.is_recurrent,
    };
    let second = Link {
        from_id: ids.0,
        to_id: link.to_id,
        enabled: true,
        innovation: ids.2,
        weight: link.weight,
        is_recurrent: false,
    };
    genome.nodes.push(Node { id: ids.0, node_type: NodeType::Hidden });
    let ghost nodes1 = genome.nodes@;
    proof {
        assert forall|id: NodeId| contains_node(nodes0, id) implies contains_node(nodes1, id) by {
            let k = choose|k: int| 0 <= k < nodes0.len() && (#[trigger] nodes0[k]).id == id;
            assert(nodes1[k].id == id);
        }
        assert(nodes1[nodes1.len() - 1].id == ids.0);
        assert(contains_node(nodes1, ids.0));
        assert(contains_node(nodes0, links0[index as int].from_id));
        assert(contains_node(nodes0, links0[index as int].to_id));
        assert(genome.wf());
        assert(!contains_link(links1, link.from_id, ids.0)) by {
            if contains_link(links1, link.from_id, ids.0) {
                let k = choose|k: int|
                    0 <= k < links0.len() && (#[trigger] links0[k]).from_id == link.from_id
                        && links0[k].to_id == ids.0;
                assert(contains_node(nodes0, links0[k].to_id));
            }
        }
        assert(receptive_node(nodes1, ids.0)) by {
            assert forall|k: int| 0 <= k < nodes1.len() && (#[trigger] nodes1[k]).id
                == ids.0 implies receptive(nodes1[k].node_type) by {
                if k < nodes0.len() {
                    assert(nodes0[k].id == ids.0);
                }
            }
        }
        assert(receptive_node(nodes1, link.to_id)) by {
            assert forall|k: int| 0 <= k < nodes1.len() && (#[trigger] nodes1[k]).id
                == link.to_id implies receptive(nodes1[k].node_type) by {
                if k < nodes0.len() {
                    assert(nodes0[k].id == links0[index as int].to_id);
                }
            }
        }
        crate::genes::lemma_with_link_contents(links1, first);
    }
    genome.add_link(first);
    proof {
        crate::genes::lemma_with_link_contents(genome.links@, second);
        assert(!contains_link(genome.links@, ids.0, link.to_id)) by {
            if contains_link(links1, ids.0, link.to_id) {
                let k = choose|k: int|
                    0 <= k < links0.len() && (#[trigger] links0[k]).from_id == ids.0
                        && links0[k].to_id == link.to_id;
                assert(contains_node(nodes0, links0[k].from_id));
            }
        }
    }
    genome.add_link(second);
    proof {
        assert forall|i: int| 0 <= i < genome.nodes@.len() implies (#[trigger] genome.nodes@[i]).id
            < *node_counter by {
            if i < nodes0.len() {
                assert(nodes0[i].id < *old(node_counter));
            }
        }
        assert forall|i: int| 0 <= i < genome.links@.len() implies (
        #[trigger] genome.links@[i]).innovation < *innovation_counter by {
            assert(contains_innovation(genome.links@, genome.links@[i].innovation));
            let x = genome.links@[i].innovation;
            if contains_innovation(links0, x) {
                let k = choose|k: int| 0 <= k < links0.len() && (#[trigger] links0[k]).innovation == x;
                assert(links0[k].innovation < *old(innovation_counter));
            }
        }
    }
}

/// Adds a node to the genome by splitting a link that is enabled and chosen
/// at random. A genome without an enabled link stays as it is.
pub fn new_node(
    genome: &mut Genome,
    rng: &mut rand::StdRng,
    innovations: &mut NewNodeInnovations,
    innovation_counter: &mut u64,
    node_counter: &mut usize,
)
    requires
        old(genome).wf(),
        counters_cover(*old(node_counter), *old(innovation_counter), old(genome)),
        splits_unused(old(innovations)@, old(genome)),
        splits_below(old(innovations)@, *old(node_counter), *old(innovation_counter)),
        *old(node_counter) < usize::MAX,
        *old(innovation_counter) + 2 <= u64::MAX,
    ensures
        final(genome).wf(),
        crate::genes::node_ids_unique(final(genome).nodes@),
        crate::genes::endpoints_present(final(genome).nodes@, final(genome).links@),
        splits_below(final(innovations)@, *final(node_counter), *final(innovation_counter)),
        counters_cover(*final(node_counter), *final(innovation_counter), final(genome)),
        (forall|i: int| 0 <= i < old(genome).links@.len() ==> !(#[trigger] old(genome).links@[i]).enabled)
            ==> final(genome).nodes@ == old(genome).nodes@ && final(genome).links@ == old(genome).links@ && final(innovations)@ == old(innovations)@ && *final(node_counter) == *old(node_counter) && *final(innovation_counter) == *old(innovation_counter),
        (exists|i: int| 0 <= i < old(genome).links@.len() && (#[trigger] old(genome).links@[i]).enabled)
            ==> exists|index: int|
            0 <= index < old(genome).links@.len() && (#[trigger] old(genome).links@[index]).enabled
                && is_split(
                old(genome),
                index,
                old(innovations)@,
                *old(node_counter),
                *old(innovation_counter),
                final(genome),
                final(innovations)@,
                *final(node_counter),
                *final(innovation_counter),
            ),
{
    let mut enabled_gene_indices: Vec<usize> = Vec::new();
    let mut i: usize = 0;
    while i < genome.links.len()
        invariant
            *genome == *old(genome),
            i <= genome.links@.len(),
            forall|k: int|
                0 <= k < enabled_gene_indices@.len() ==> (#[trigger] enabled_gene_indices@[k])
                    < genome.links@.len() && genome.links@[enabled_gene_indices@[k] as int].enabled,
            (exists|k: int| 0 <= k < i && (#[trigger] genome.links@[k]).enabled)
                ==> enabled_gene_indices@.len() > 0,
        decreases genome.links@.len() - i,
    {
        if genome.links[i].enabled {
            enabled_gene_indices.push(i);
        }
        i += 1;
    }
    match pick(rng, &enabled_gene_indices) {
        Some(index) => {
            proof {
                let k = choose|k: int|
                    0 <= k < enabled_gene_indices@.len() && enabled_gene_indices@[k] == index;
                assert(enabled_gene_indices@[k] < genome.links@.len());
            }
            split_link(genome, index, innovations, innovation_counter, node_counter);
            assert(old(genome).links@[index as int].enabled);
        },
        None => {},
    }
}


/// `after` and the registry and counter beside it are what a new enabled
/// link from `from_id` to `to_id` makes of `before` and those beside it.
pub open spec fn is_join(
    before: &Genome,
    from_id: NodeId,
    to_id: NodeId,
    recurrent: bool,
    weight: i64,
    records_before: Map<NewLinkInnovation, u64>,
    innovation_counter_before: u64,
    after: &Genome,
    records_after: Map<NewLinkInnovation, u64>,
    innovation_counter_after: u64,
) -> bool {
    let key = NewLinkInnovation { from_id, to_id, is_recurrent: recurrent };
    let innovation = join_id(records_before, key, innovation_counter_before);
    &&& after.nodes@ == before.nodes@
    &&& after.links@ == with_link(
        before.links@,
        Link { from_id, to_id, enabled: true, innovation, weight, is_recurrent: recurrent },
    )
    &&& records_after == records_before.insert(key, innovation)
    &&& if records_before.contains_key(key) {
        innovation_counter_after == innovation_counter_before
    } else {
        innovation_counter_after == innovation_counter_before + 1
    }
}

/// Adds an enabled link from `from_id` to `to_id`. Where a new link between
/// these nodes with this recurrence was recorded earlier in the generation,
/// the link gets the recorded innovation number; otherwise the counter gives
/// out a new one and the link is recorded.
pub fn connect(
    genome: &mut Genome,
    from_id: NodeId,
    to_id: NodeId,
    recurrent: bool,
    weight: i64,
    innovations: &mut NewLinkInnovations,
    innovation_counter: &mut u64,
)
    requires
        old(genome).wf(),
        contains_node(old(genome).nodes@, from_id),
        contains_node(old(genome).nodes@, to_id),
        receptive_node(old(genome).nodes@, to_id),
        !contains_link(old(genome).links@, from_id, to_id),
        -WEIGHT_LIMIT <= weight <= WEIGHT_LIMIT,
        innovations_below(*old(innovation_counter), old(genome)),
        joins_unused(old(innovations)@, old(genome)),
        joins_below(old(innovations)@, *old(innovation_counter)),
        *old(innovation_counter) < u64::MAX,
    ensures
        is_join(
            old(genome),
            from_id,
            to_id,
            recurrent,
            weight,
            old(innovations)@,
            *old(innovation_counter),
            final(genome),
            final(innovations)@,
            *final(innovation_counter),
        ),
        final(genome).wf(),
        joins_below(final(innovations)@, *final(innovation_counter)),
        innovations_below(*final(innovation_counter), final(genome)),
{
    let key = NewLinkInnovation { from_id, to_id, is_recurrent: recurrent };
    let innovation = match innovations.get(&key) {
        Some(innovation) => {
            assert(innovations@ =~= old(innovations)@.insert(key, innovation));
            innovation
        },
        None => {
            let innovation = *innovation_counter;
            *innovation_counter += 1;
            innovations.insert(key, innovation);
            innovation
        },
    };
    assert(!contains_innovation(genome.links@, innovation));
    let ghost links0 = genome.links@;
    let link = Link { from_id, to_id, enabled: true, innovation, weight, is_recurrent: recurrent };
    proof {
        crate::genes::lemma_with_link_contents(links0, link);
    }
    genome.add_link(link);
    proof {
        assert forall|i: int| 0 <= i < genome.links@.len() implies (
        #[trigger] genome.links@[i]).innovation < *innovation_counter by {
            let x = genome.links@[i].innovation;
            assert(contains_innovation(genome.links@, x));
            if contains_innovation(links0, x) {
                let k = choose|k: int| 0 <= k < links0.len() && (#[trigger] links0[k]).innovation == x;
                assert(links0[k].innovation < *old(innovation_counter));
            }
        }
    }
}

/// A link from `from_id` to `to_id` can be added with the given recurrence:
/// a link that is not recurrent joins two different nodes, the nodes are not
/// joined yet, and the link would close a cycle just when it is to be
/// recurrent.
pub open spec fn fits(genome: &Genome, from_id: NodeId, to_id: NodeId, recurrent: bool) -> bool {
    &&& recurrent || from_id != to_id
    &&& !contains_link(genome.links@, from_id, to_id)
    &&& reaches(genome.links@, to_id, from_id) == recurrent
}

/// Whether a link from `from_id` to `to_id` can be added with the given
/// recurrence.
pub fn link_fits(genome: &Genome, from_id: NodeId, to_id: NodeId, recurrent: bool) -> (ok: bool)
    requires
        contains_node(genome.nodes@, to_id),
        endpoints_present(genome.nodes@, genome.links@),
    ensures
        ok == fits(genome, from_id, to_id, recurrent),
{
    if !recurrent && from_id == to_id {
        return false;
    }
    !genome.is_link(from_id, to_id) && genome.is_new_link_recurrent(from_id, to_id) == recurrent
}

/// A link of the recurrence `recurrent` may be added at the probability
/// `recurrent_link_prob` of a recurrent link: at the probability zero only a
/// link that is not recurrent, at the probability one only a recurrent one.
pub open spec fn may_recur(recurrent_link_prob: Prob, recurrent: bool) -> bool {
    &&& recurrent_link_prob == 0 ==> !recurrent
    &&& recurrent_link_prob >= ONE ==> recurrent
}

/// Some node of the genome is hidden or an output node.
pub open spec fn has_target(genome: &Genome) -> bool {
    exists|k: int| 0 <= k < genome.nodes@.len() && receptive((#[trigger] genome.nodes@[k]).node_type)
}

/// No hidden or output node of the genome is joined to itself.
pub open spec fn self_links_free(genome: &Genome) -> bool {
    forall|k: int|
        0 <= k < genome.nodes@.len() && receptive((#[trigger] genome.nodes@[k]).node_type)
            ==> !contains_link(genome.links@, genome.nodes@[k].id, genome.nodes@[k].id)
}

/// A recurrent link from a hidden or output node to itself is certain to be
/// added: both the recurrence and the self link are certain, there is a try
/// to make and a node to take, and no such node is joined to itself yet.
pub open spec fn self_link_certain(
    genome: &Genome,
    recurrent_link_prob: Prob,
    self_link_prob: Prob,
    num_tries: usize,
) -> bool {
    &&& num_tries > 0
    &&& recurrent_link_prob >= ONE
    &&& self_link_prob >= ONE
    &&& has_target(genome)
    &&& self_links_free(genome)
}

/// Adds a link between two nodes chosen at random: the source among all
/// nodes, the target among the hidden and output nodes. Whether the link is
/// to be recurrent is decided first; a recurrent link may, with the
/// probability `self_link_prob`, join a node to itself. Up to `num_tries`
/// pairs are tried until one fits; where none does, the genome stays as it
/// is. The weight is drawn between minus one and one.
pub fn new_link(
    genome: &mut Genome,
    rng: &mut rand::StdRng,
    innovations: &mut NewLinkInnovations,
    innovation_counter: &mut u64,
    recurrent_link_prob: Prob,
    self_link_prob: Prob,
    num_tries: usize,
)
    requires
        old(genome).wf(),
        innovations_below(*old(innovation_counter), old(genome)),
        joins_unused(old(innovations)@, old(genome)),
        joins_below(old(innovations)@, *old(innovation_counter)),
        *old(innovation_counter) < u64::MAX,
    ensures
        final(genome).wf(),
        crate::genes::targets_receptive(final(genome).nodes@, final(genome).links@),
        final(genome).nodes@ == old(genome).nodes@,
        joins_below(final(innovations)@, *final(innovation_counter)),
        innovations_below(*final(innovation_counter), final(genome)),
        (final(genome).links@ == old(genome).links@ && final(innovations)@ == old(innovations)@
            && *final(innovation_counter) == *old(innovation_counter)) || exists|
            from_id: NodeId,
            to_id: NodeId,
            recurrent: bool,
            weight: i64,
        |
            #![trigger fits(old(genome), from_id, to_id, recurrent), is_join(old(genome), from_id, to_id, recurrent, weight, old(innovations)@, *old(innovation_counter), final(genome), final(innovations)@, *final(innovation_counter))]
            contains_node(old(genome).nodes@, from_id) && contains_node(old(genome).nodes@, to_id)
                && receptive_node(old(genome).nodes@, to_id) && may_recur(
                recurrent_link_prob,
                recurrent,
            ) && fits(old(genome), from_id, to_id, recurrent) && -ONE < weight < ONE && is_join(
                old(genome),
                from_id,
                to_id,
                recurrent,
                weight,
                old(innovations)@,
                *old(innovation_counter),
                final(genome),
                final(innovations)@,
                *final(innovation_counter),
            ),
        num_tries == 0 || (forall|k: int|
            0 <= k < old(genome).nodes@.len() ==> !receptive(
                (#[trigger] old(genome).nodes@[k]).node_type,
            )) ==> final(genome).links@ == old(genome).links@ && final(innovations)@ == old(innovations)@ && *final(innovation_counter) == *old(innovation_counter),
        self_link_certain(old(genome), recurrent_link_prob, self_link_prob, num_tries) ==> exists|
            to_id: NodeId,
            weight: i64,
        |
            contains_node(old(genome).nodes@, to_id) && receptive_node(old(genome).nodes@, to_id)
                && -ONE < weight < ONE && #[trigger] is_join(
                old(genome),
                to_id,
                to_id,
                true,
                weight,
                old(innovations)@,
                *old(innovation_counter),
                final(genome),
                final(innovations)@,
                *final(innovation_counter),
            ),
{
    let ghost certain = self_link_certain(old(genome), recurrent_link_prob, self_link_prob, num_tries);
    let mut node_ids: Vec<usize> = Vec::new();
    let mut target_ids: Vec<usize> = Vec::new();
    let mut i: usize = 0;
    while i < genome.nodes.len()
        invariant
            *genome == *old(genome),
            genome.wf(),
            i <= genome.nodes@.len(),
            forall|k: int|
                0 <= k < node_ids@.len() ==> contains_node(genome.nodes@, #[trigger] node_ids@[k]),
            forall|k: int|
                0 <= k < target_ids@.len() ==> contains_node(
                    genome.nodes@,
                    #[trigger] target_ids@[k],
                ) && receptive_node(genome.nodes@, target_ids@[k]),
            (forall|k: int|
                0 <= k < genome.nodes@.len() ==> !receptive(
                    (#[trigger] genome.nodes@[k]).node_type,
                )) ==> target_ids@.len() == 0,
            forall|k: int|
                0 <= k < i && receptive((#[trigger] genome.nodes@[k]).node_type)
                    ==> target_ids@.len() > 0,
            node_ids@.len() == i,
        decreases genome.nodes@.len() - i,
    {
        let node = genome.nodes[i];
        node_ids.push(node.id);
        let is_target = match node.node_type {
            NodeType::Hidden => true,
            NodeType::Output => true,
            _ => false,
        };
        if is_target {
            target_ids.push(node.id);
            assert(receptive_node(genome.nodes@, node.id)) by {
                assert forall|k: int| 0 <= k < genome.nodes@.len() && (#[trigger] genome.nodes@[k]).id
                    == node.id implies receptive(genome.nodes@[k].node_type) by {
                    if k < i {
                        assert(genome.nodes@[k].id != genome.nodes@[i as int].id);
                    } else if k > i {
                        assert(genome.nodes@[i as int].id != genome.nodes@[k].id);
                    }
                }
            }
        }
        i += 1;
    }
    proof {
        if has_target(genome) {
            let k = choose|k: int|
                0 <= k < genome.nodes@.len() && receptive((#[trigger] genome.nodes@[k]).node_type);
            assert(target_ids@.len() > 0);
        }
    }
    if node_ids.len() == 0 || target_ids.len() == 0 {
        return ;
    }
    let recurrent = chance(rng, recurrent_link_prob);
    let mut from_id: usize = 0;
    let mut to_id: usize = 0;
    let mut found = false;
    let mut tries: usize = 0;
    while tries < num_tries && !found
        invariant
            *genome == *old(genome),
            genome.wf(),
            node_ids@.len() > 0,
            target_ids@.len() > 0,
            forall|k: int|
                0 <= k < node_ids@.len() ==> contains_node(genome.nodes@, #[trigger] node_ids@[k]),
            forall|k: int|
                0 <= k < target_ids@.len() ==> contains_node(
                    genome.nodes@,
                    #[trigger] target_ids@[k],
                ) && receptive_node(genome.nodes@, target_ids@[k]),
            found ==> contains_node(genome.nodes@, from_id) && contains_node(genome.nodes@, to_id)
                && receptive_node(genome.nodes@, to_id) && fits(genome, from_id, to_id, recurrent),
            found ==> num_tries > 0,
            (forall|k: int|
                0 <= k < genome.nodes@.len() ==> !receptive(
                    (#[trigger] genome.nodes@[k]).node_type,
                )) ==> target_ids@.len() == 0,
            certain == self_link_certain(genome, recurrent_link_prob, self_link_prob, num_tries),
            certain ==> recurrent,
            may_recur(recurrent_link_prob, recurrent),
            certain && tries >= 1 ==> found,
            certain && found ==> from_id == to_id,
        decreases num_tries - tries, if found { 0int } else { 1int },
    {
        let mut sampled = false;
        if recurrent && chance(rng, self_link_prob) {
            match pick(rng, &target_ids) {
                Some(node) => {
                    from_id = node;
                    to_id = node;
                    sampled = true;
                    proof {
                        let k = choose|k: int| 0 <= k < target_ids@.len() && target_ids@[k] == node;
                        assert(contains_node(genome.nodes@, target_ids@[k]));
                        if certain {
                            let at = choose|at: int|
                                0 <= at < genome.nodes@.len() && (#[trigger] genome.nodes@[at]).id
                                    == node;
                            assert(receptive(genome.nodes@[at].node_type));
                            assert(!contains_link(genome.links@, node, node));
                            crate::genes::lemma_reaches_itself(genome.links@, node);
                            assert(fits(genome, node, node, recurrent));
                        }
                    }
                },
                None => {},
            }
        } else {
            match pick(rng, &node_ids) {
                Some(source) => {
                    match pick(rng, &target_ids) {
                        Some(target) => {
                            from_id = source;
                            to_id = target;
                            sampled = true;
                            proof {
                                let k = choose|k: int|
                                    0 <= k < target_ids@.len() && target_ids@[k] == target;
                                assert(contains_node(genome.nodes@, target_ids@[k]));
                                let j = choose|j: int|
                                    0 <= j < node_ids@.len() && node_ids@[j] == source;
                                assert(contains_node(genome.nodes@, node_ids@[j]));
                            }
                        },
                        None => {},
                    }
                },
                None => {},
            }
        }
        if sampled && link_fits(genome, from_id, to_id, recurrent) {
            found = true;
        }
        tries += 1;
    }
    if !found {
        return ;
    }
    let weight = rand_pos_neg(rng) * fraction(rng);
    connect(genome, from_id, to_id, recurrent, weight, innovations, innovation_counter);
}

/// The link list after the link at `index` has changed its enabled status.
/// A disabled link is enabled. An enabled link is disabled only where its
/// source node keeps another enabled outgoing link.
pub open spec fn toggled(links: Seq<Link>, index: int) -> Seq<Link> {
    let link = links[index];
    let enabled = if link.enabled {
        outgoing(links, link.from_id).len() < 2
    } else {
        true
    };
    links.update(
        index,
        Link {
            from_id: link.from_id,
            to_id: link.to_id,
            enabled,
            innovation: link.innovation,
            weight: link.weight,
            is_recurrent: link.is_recurrent,
        },
    )
}

/// Changes the enabled status of the link at `index`: see [`toggled`].
pub fn toggle_link(genome: &mut Genome, index: usize)
    requires
        index < old(genome).links@.len(),
        endpoints_present(old(genome).nodes@, old(genome).links@),
    ensures
        final(genome).nodes@ == old(genome).nodes@,
        final(genome).links@ == toggled(old(genome).links@, index as int),
        old(genome).wf() ==> final(genome).wf(),
{
    let link = genome.links[index];
    let enabled = if link.enabled {
        genome.successor_links(link.from_id).len() < 2
    } else {
        true
    };
    let ghost links0 = genome.links@;
    genome.links.set(
        index,
        Link {
            from_id: link.from_id,
            to_id: link.to_id,
            enabled,
            innovation: link.innovation,
            weight: link.weight,
            is_recurrent: link.is_recurrent,
        },
    );
    proof {
        let links1 = genome.links@;
        assert forall|i: int| 0 <= i < links1.len() implies (#[trigger] links1[i]).from_id
            == links0[i].from_id && links1[i].to_id == links0[i].to_id && links1[i].innovation
            == links0[i].innovation && links1[i].weight == links0[i].weight by {}
    }
}

/// Changes the enabled status of a link chosen at random. A genome without
/// links stays as it is.
pub fn toggle_enable(genome: &mut Genome, rng: &mut rand::StdRng)
    requires
        endpoints_present(old(genome).nodes@, old(genome).links@),
    ensures
        final(genome).nodes@ == old(genome).nodes@,
        old(genome).links@.len() == 0 ==> final(genome).links@ == old(genome).links@,
        old(genome).links@.len() > 0 ==> exists|index: int|
            0 <= index < old(genome).links@.len() && final(genome).links@ == #[trigger] toggled(
                old(genome).links@,
                index,
            ),
        old(genome).wf() ==> final(genome).wf(),
{
    let mut gene_indices: Vec<usize> = Vec::new();
    let mut i: usize = 0;
    while i < genome.links.len()
        invariant
            *genome == *old(genome),
            i <= genome.links@.len(),
            gene_indices@.len() == i,
            forall|k: int| 0 <= k < i ==> #[trigger] gene_indices@[k] == k,
        decreases genome.links@.len() - i,
    {
        gene_indices.push(i);
        i += 1;
    }
    match pick(rng, &gene_indices) {
        Some(index) => {
            proof {
                let k = choose|k: int| 0 <= k < gene_indices@.len() && gene_indices@[k] == index;
                assert(gene_indices@[k] == k);
            }
            toggle_link(genome, index);
        },
        None => {},
    }
}

/// The size of an integer.
pub open spec fn magnitude(x: int) -> int {
    if x >= 0 {
        x
    } else {
        -x
    }
}

/// The weight that a mutation makes of `weight`: a perturbation adds
/// `delta`, a reset replaces the weight by `delta`; the result is limited to
/// the range from minus eight to eight.
pub open spec fn mutated_weight(weight: i64, mutation: LinkMutation, delta: i64) -> int {
    limit(
        match mutation {
            LinkMutation::Perturbate => saturate(weight + delta) as int,
            LinkMutation::Reset => delta as int,
            LinkMutation::Unchanged => weight as int,
        },
        WEIGHT_LIMIT as int,
    )
}

/// The weight that a mutation makes of `weight`.
pub fn apply_link_mutation(weight: i64, mutation: LinkMutation, delta: i64) -> (r: i64)
    ensures
        r == mutated_weight(weight, mutation, delta),
{
    let raw = match mutation {
        LinkMutation::Perturbate => add_saturating(weight, delta),
        LinkMutation::Reset => delta,
        LinkMutation::Unchanged => weight,
    };
    clamp(raw, WEIGHT_LIMIT)
}

/// A fraction of a quantity is not larger than the quantity.
pub proof fn lemma_fraction_of(f: int, power: int)
    requires
        0 <= f < ONE,
    ensures
        magnitude(product(f, power)) <= magnitude(power),
{
    let m = magnitude(power);
    assert(magnitude(f * power) == f * m) by (nonlinear_arith)
        requires
            0 <= f,
            m == magnitude(power),
    ;
    assert(f * m <= ONE * m) by (nonlinear_arith)
        requires
            0 <= f < ONE,
            m >= 0,
    ;
    assert((f * m) / (ONE as int) <= m) by (nonlinear_arith)
        requires
            0 <= f * m <= ONE * m,
            ONE == 1_000_000,
    ;
    assert((f * m) / (ONE as int) >= 0) by (nonlinear_arith)
        requires
            0 <= f * m,
            ONE == 1_000_000,
    ;
}

/// The share `fraction` of `power`, with the sign `sign`: the fixed-point
/// product of the two, negated where the sign is not one.
pub open spec fn signed_share(sign: i64, fraction: i64, power: i64) -> i64 {
    let share = saturate(product(fraction as int, power as int));
    if sign == 1 || share == i64::MIN {
        share
    } else {
        (-share) as i64
    }
}

/// The share `fraction` of `power`, with the sign `sign`.
pub fn share_of(sign: i64, fraction: i64, power: i64) -> (delta: i64)
    ensures
        delta == signed_share(sign, fraction, power),
{
    let scaled = multiply(fraction, power);
    if sign == 1 || scaled == i64::MIN {
        scaled
    } else {
        -scaled
    }
}

/// A random change of weight: a uniform fraction of `power`, with a random
/// sign.
pub fn random_delta(rng: &mut rand::StdRng, power: i64) -> (delta: i64)
    ensures
        exists|sign: i64, fraction: i64|
            (sign == 1 || sign == -1) && 0 <= fraction < ONE && delta == #[trigger] signed_share(
                sign,
                fraction,
                power,
            ),
        magnitude(delta as int) <= magnitude(power as int),
{
    let s = rand_pos_neg(rng);
    let f = fraction(rng);
    proof {
        lemma_fraction_of(f as int, power as int);
    }
    let delta = share_of(s, f, power);
    assert(magnitude(saturate(product(f as int, power as int)) as int) <= magnitude(
        product(f as int, power as int),
    ));
    assert(delta == signed_share(s, f, power));
    delta
}

/// `after` is `before` but for its weight, which some mutation has changed
/// by some amount not larger than `power`.
pub open spec fn weight_evolved(before: Link, after: Link, power: i64) -> bool {
    &&& after.from_id == before.from_id
    &&& after.to_id == before.to_id
    &&& after.enabled == before.enabled
    &&& after.innovation == before.innovation
    &&& after.is_recurrent == before.is_recurrent
    &&& exists|mutation: LinkMutation, delta: i64| #[trigger]
        mutated_weight(before.weight, mutation, delta) == after.weight && magnitude(delta as int)
            <= magnitude(power as int)
}

/// `after` is `before` but for its weight, which the given mutation has
/// changed by some amount not larger than `power`.
pub open spec fn weight_mutated(
    before: Link,
    after: Link,
    mutation: LinkMutation,
    power: i64,
) -> bool {
    &&& after.from_id == before.from_id
    &&& after.to_id == before.to_id
    &&& after.enabled == before.enabled
    &&& after.innovation == before.innovation
    &&& after.is_recurrent == before.is_recurrent
    &&& exists|delta: i64| #[trigger]
        mutated_weight(before.weight, mutation, delta) == after.weight && magnitude(delta as int)
            <= magnitude(power as int)
}

/// Applies to each link the mutation that `mutations` holds for its
/// position, with a random change of weight not larger than `power`, and
/// limits every weight to the range from minus eight to eight.
pub fn change_link_weights(
    genome: &mut Genome,
    rng: &mut rand::StdRng,
    mutations: &Vec<LinkMutation>,
    power: i64,
)
    requires
        mutations@.len() == old(genome).links@.len(),
    ensures
        final(genome).nodes@ == old(genome).nodes@,
        final(genome).links@.len() == old(genome).links@.len(),
        forall|i: int|
            0 <= i < old(genome).links@.len() ==> weight_mutated(
                old(genome).links@[i],
                #[trigger] final(genome).links@[i],
                mutations@[i],
                power,
            ),
        crate::genes::weights_bounded(final(genome).links@),
        old(genome).wf() ==> final(genome).wf(),
{
    let mut position: usize = 0;
    while position < genome.links.len()
        invariant
            position <= genome.links@.len(),
            genome.nodes@ == old(genome).nodes@,
            genome.links@.len() == old(genome).links@.len(),
            mutations@.len() == genome.links@.len(),
            forall|i: int|
                0 <= i < position ==> weight_mutated(
                    old(genome).links@[i],
                    #[trigger] genome.links@[i],
                    mutations@[i],
                    power,
                ),
            forall|i: int|
                0 <= i < position ==> -WEIGHT_LIMIT <= (#[trigger] genome.links@[i]).weight
                    <= WEIGHT_LIMIT,
            forall|i: int|
                position <= i < genome.links@.len() ==> #[trigger] genome.links@[i] == old(genome).links@[i],
        decreases genome.links@.len() - position,
    {
        let link = genome.links[position];
        let mutation = mutations[position];
        let delta = match mutation {
            LinkMutation::Unchanged => 0,
            _ => random_delta(rng, power),
        };
        let weight = apply_link_mutation(link.weight, mutation, delta);
        genome.links.set(
            position,
            Link {
                from_id: link.from_id,
                to_id: link.to_id,
                enabled: link.enabled,
                innovation: link.innovation,
                weight,
                is_recurrent: link.is_recurrent,
            },
        );
        proof {
            assert(mutated_weight(link.weight, mutation, delta) == weight);
            assert(magnitude(delta as int) <= magnitude(power as int));
            assert(weight_mutated(
                old(genome).links@[position as int],
                genome.links@[position as int],
                mutations@[position as int],
                power,
            ));
        }
        position += 1;
    }
    proof {
        let links0 = old(genome).links@;
        let links1 = genome.links@;
        assert forall|i: int| 0 <= i < links1.len() implies (#[trigger] links1[i]).from_id
            == links0[i].from_id && links1[i].to_id == links0[i].to_id && links1[i].innovation
            == links0[i].innovation by {
            assert(weight_mutated(links0[i], links1[i], mutations@[i], power));
        }
    }
}

/// The mutation that the random choice `choice` selects: a perturbation
/// where it exceeds `perturbate_point`, else a reset where it exceeds
/// `reset_point`, else none.
pub open spec fn selected_mutation(
    choice: i64,
    perturbate_point: i64,
    reset_point: i64,
) -> LinkMutation {
    if choice > perturbate_point {
        LinkMutation::Perturbate
    } else if choice > reset_point {
        LinkMutation::Reset
    } else {
        LinkMutation::Unchanged
    }
}

/// The mutation that the random choice `choice` selects.
pub fn select_link_mutation(choice: i64, perturbate_point: i64, reset_point: i64) -> (mutation:
    LinkMutation)
    ensures
        mutation == selected_mutation(choice, perturbate_point, reset_point),
{
    if choice > perturbate_point {
        LinkMutation::Perturbate
    } else if choice > reset_point {
        LinkMutation::Reset
    } else {
        LinkMutation::Unchanged
    }
}

/// Selects a mutation by a uniform random choice between zero and one.
pub fn rand_link_mutation(rng: &mut rand::StdRng, perturbate_point: i64, reset_point: i64) -> (mutation:
    LinkMutation)
    ensures
        exists|choice: i64|
            0 <= choice < ONE && mutation == #[trigger] selected_mutation(
                choice,
                perturbate_point,
                reset_point,
            ),
{
    let choice = fraction(rng);
    select_link_mutation(choice, perturbate_point, reset_point)
}

/// The points of the standard weight mutation for a link at `position` of
/// `num_links`: a severe mutation perturbs and resets often; in a genome of
/// more than ten links the newest fifth is reset more often; otherwise the
/// rate decides, and `flip` tells whether resets are ruled out.
pub open spec fn standard_points(
    severe: bool,
    num_links: int,
    position: int,
    flip: bool,
    rate: Prob,
) -> (i64, i64) {
    if severe {
        (300_000i64, 100_000i64)
    } else if num_links > 10 && 5 * position >= 4 * num_links {
        (500_000i64, 300_000i64)
    } else if flip {
        ((ONE - rate) as i64, (ONE - rate) as i64)
    } else {
        ((ONE - rate) as i64, (ONE - rate - 100_000) as i64)
    }
}

/// Whether a link at `position` of `num_links` belongs to the newest fifth
/// of a genome of more than ten links.
pub fn in_newer_part(num_links: usize, position: usize) -> (newer: bool)
    ensures
        newer == (num_links > 10 && 5 * position >= 4 * num_links),
{
    num_links > 10 && 5 * (position as u128) >= 4 * (num_links as u128)
}

/// The points of the standard weight mutation.
pub fn standard_mutation_points(
    severe: bool,
    num_links: usize,
    position: usize,
    flip: bool,
    rate: Prob,
) -> (points: (i64, i64))
    ensures
        points == standard_points(severe, num_links as int, position as int, flip, rate),
{
    if severe {
        (300_000, 100_000)
    } else if in_newer_part(num_links, position) {
        (500_000, 300_000)
    } else if flip {
        (ONE - rate as i64, ONE - rate as i64)
    } else {
        (ONE - rate as i64, ONE - rate as i64 - 100_000)
    }
}

/// Every link of `after` is the link of `before` at its position but for
/// its weight, which some mutation has changed by some amount not larger
/// than `power`.
pub open spec fn weights_evolved(before: Seq<Link>, after: Seq<Link>, power: i64) -> bool {
    &&& after.len() == before.len()
    &&& forall|i: int| 0 <= i < before.len() ==> weight_evolved(before[i], #[trigger] after[i], power)
}

/// `mutation` is one that the standard weight mutation may select for the
/// link at `position` of `num_links`: the one that some random choice
/// selects by the points for the position.
pub open spec fn standard_choice(
    mutation: LinkMutation,
    severe: bool,
    num_links: int,
    position: int,
    rate: Prob,
) -> bool {
    exists|flip: bool, choice: i64|
        0 <= choice < ONE && mutation == #[trigger] selected_mutation(
            choice,
            standard_points(severe, num_links, position, flip, rate).0,
            standard_points(severe, num_links, position, flip, rate).1,
        )
}

/// `after` is `before` but for its weight, which a mutation that the
/// standard weight mutation may select for the position has changed by some
/// amount not larger than `power`.
pub open spec fn standard_outcome(
    before: Link,
    after: Link,
    severe: bool,
    num_links: int,
    position: int,
    rate: Prob,
    power: i64,
) -> bool {
    exists|mutation: LinkMutation|
        standard_choice(mutation, severe, num_links, position, rate) && #[trigger] weight_mutated(
            before,
            after,
            mutation,
            power,
        )
}

/// Every link of `after` is the link of `before` at its position but for
/// its weight, which a mutation that the standard weight mutation may select
/// for the position has changed by some amount not larger than `power`.
pub open spec fn standard_outcomes(
    before: Seq<Link>,
    after: Seq<Link>,
    severe: bool,
    rate: Prob,
    power: i64,
) -> bool {
    &&& after.len() == before.len()
    &&& forall|i: int|
        0 <= i < before.len() ==> #[trigger] standard_outcome(
            before[i],
            after[i],
            severe,
            before.len() as int,
            i,
            rate,
            power,
        )
}

/// The standard weight mutation: a coin decides whether it is severe; each
/// link then gets a mutation selected at random by the points for its
/// position.
pub fn change_link_weights_standard(
    genome: &mut Genome,
    rng: &mut rand::StdRng,
    rate: Prob,
    power: i64,
)
    ensures
        final(genome).nodes@ == old(genome).nodes@,
        final(genome).links@.len() == old(genome).links@.len(),
        exists|severe: bool| #[trigger]
            standard_outcomes(old(genome).links@, final(genome).links@, severe, rate, power),
        weights_evolved(old(genome).links@, final(genome).links@, power),
        crate::genes::weights_bounded(final(genome).links@),
        old(genome).wf() ==> final(genome).wf(),
{
    let severe = coin(rng);
    let num_links = genome.links.len();
    let mut mutations: Vec<LinkMutation> = Vec::new();
    let mut position: usize = 0;
    while position < num_links
        invariant
            position <= num_links,
            mutations@.len() == position,
            forall|k: int|
                0 <= k < position ==> standard_choice(
                    #[trigger] mutations@[k],
                    severe,
                    num_links as int,
                    k,
                    rate,
                ),
        decreases num_links - position,
    {
        let flip = if !severe && !in_newer_part(num_links, position) {
            coin(rng)
        } else {
            false
        };
        let points = standard_mutation_points(severe, num_links, position, flip, rate);
        let mutation = rand_link_mutation(rng, points.0, points.1);
        proof {
            let choice = choose|choice: i64|
                0 <= choice < ONE && mutation == #[trigger] selected_mutation(
                    choice,
                    points.0,
                    points.1,
                );
            assert(mutation == selected_mutation(
                choice,
                standard_points(severe, num_links as int, position as int, flip, rate).0,
                standard_points(severe, num_links as int, position as int, flip, rate).1,
            ));
            assert(standard_choice(mutation, severe, num_links as int, position as int, rate));
        }
        mutations.push(mutation);
        position += 1;
    }
    change_link_weights(genome, rng, &mutations, power);
    proof {
        assert forall|i: int| 0 <= i < old(genome).links@.len() implies weight_evolved(
            old(genome).links@[i],
            #[trigger] genome.links@[i],
            power,
        ) by {
            assert(weight_mutated(old(genome).links@[i], genome.links@[i], mutations@[i], power));
        }
        assert forall|i: int| 0 <= i < old(genome).links@.len() implies #[trigger] standard_outcome(
            old(genome).links@[i],
            genome.links@[i],
            severe,
            old(genome).links@.len() as int,
            i,
            rate,
            power,
        ) by {
            assert(weight_mutated(old(genome).links@[i], genome.links@[i], mutations@[i], power));
            assert(standard_choice(mutations@[i], severe, num_links as int, i, rate));
        }
        assert(standard_outcomes(old(genome).links@, genome.links@, severe, rate, power));
    }
}

/// Perturbs the weight of each link with the probability `prob`.
pub fn change_link_weights_perturbate_some(
    genome: &mut Genome,
    rng: &mut rand::StdRng,
    prob: Prob,
    power: i64,
)
    ensures
        final(genome).nodes@ == old(genome).nodes@,
        final(genome).links@.len() == old(genome).links@.len(),
        forall|i: int|
            0 <= i < old(genome).links@.len() ==> weight_mutated(
                old(genome).links@[i],
                #[trigger] final(genome).links@[i],
                LinkMutation::Perturbate,
                power,
            ) || weight_mutated(
                old(genome).links@[i],
                final(genome).links@[i],
                LinkMutation::Unchanged,
                power,
            ),
        prob == 0 ==> forall|i: int|
            0 <= i < old(genome).links@.len() ==> weight_mutated(
                old(genome).links@[i],
                #[trigger] final(genome).links@[i],
                LinkMutation::Unchanged,
                power,
            ),
        crate::genes::weights_bounded(final(genome).links@),
        old(genome).wf() ==> final(genome).wf(),
{
    let num_links = genome.links.len();
    let mut mutations: Vec<LinkMutation> = Vec::new();
    let mut position: usize = 0;
    while position < num_links
        invariant
            position <= num_links,
            mutations@.len() == position,
            forall|i: int|
                0 <= i < position ==> (#[trigger] mutations@[i]) == LinkMutation::Perturbate
                    || mutations@[i] == LinkMutation::Unchanged,
            prob == 0 ==> forall|i: int|
                0 <= i < position ==> (#[trigger] mutations@[i]) == LinkMutation::Unchanged,
        decreases num_links - position,
    {
        if chance(rng, prob) {
            mutations.push(LinkMutation::Perturbate);
        } else {
            mutations.push(LinkMutation::Unchanged);
        }
        position += 1;
    }
    change_link_weights(genome, rng, &mutations, power);
    proof {
        assert forall|i: int| 0 <= i < old(genome).links@.len() implies weight_mutated(
            old(genome).links@[i],
            #[trigger] genome.links@[i],
            LinkMutation::Perturbate,
            power,
        ) || weight_mutated(
            old(genome).links@[i],
            genome.links@[i],
            LinkMutation::Unchanged,
            power,
        ) by {
            assert(weight_mutated(old(genome).links@[i], genome.links@[i], mutations@[i], power));
        }
        if prob == 0 {
            assert forall|i: int| 0 <= i < old(genome).links@.len() implies weight_mutated(
                old(genome).links@[i],
                #[trigger] genome.links@[i],
                LinkMutation::Unchanged,
                power,
            ) by {
                assert(weight_mutated(
                    old(genome).links@[i],
                    genome.links@[i],
                    mutations@[i],
                    power,
                ));
            }
        }
    }
}

/// Replaces every weight by a random one not larger than `power`.
pub fn change_link_weights_reset_all(genome: &mut Genome, rng: &mut rand::StdRng, power: i64)
    ensures
        final(genome).nodes@ == old(genome).nodes@,
        final(genome).links@.len() == old(genome).links@.len(),
        forall|i: int|
            0 <= i < old(genome).links@.len() ==> weight_mutated(
                old(genome).links@[i],
                #[trigger] final(genome).links@[i],
                LinkMutation::Reset,
                power,
            ),
        crate::genes::weights_bounded(final(genome).links@),
        old(genome).wf() ==> final(genome).wf(),
{
    let num_links = genome.links.len();
    let mut mutations: Vec<LinkMutation> = Vec::new();
    let mut position: usize = 0;
    while position < num_links
        invariant
            position <= num_links,
            mutations@.len() == position,
            forall|i: int| 0 <= i < position ==> (#[trigger] mutations@[i]) == LinkMutation::Reset,
        decreases num_links - position,
    {
        mutations.push(LinkMutation::Reset);
        position += 1;
    }
    change_link_weights(genome, rng, &mutations, power);
    proof {
        assert forall|i: int| 0 <= i < old(genome).links@.len() implies weight_mutated(
            old(genome).links@[i],
            #[trigger] genome.links@[i],
            LinkMutation::Reset,
            power,
        ) by {
            assert(weight_mutated(old(genome).links@[i], genome.links@[i], mutations@[i], power));
        }
    }
}


impl State {
    /// A state with the given counters and nothing recorded.
    pub fn new(node_counter: usize, innovation_counter: u64) -> (state: State)
        ensures
            state.node_counter == node_counter,
            state.innovation_counter == innovation_counter,
            state.link_innovations@ == Map::<NewLinkInnovation, u64>::empty(),
            state.node_innovations@ == Map::<NewNodeInnovation, (NodeId, u64, u64)>::empty(),
            state.wf(),
    {
        State {
            node_counter,
            innovation_counter,
            link_innovations: NewLinkInnovations::new(),
            node_innovations: NewNodeInnovations::new(),
        }
    }

    /// Everything recorded lies below the counters.
    pub open spec fn wf(&self) -> bool {
        &&& splits_below(self.node_innovations@, self.node_counter, self.innovation_counter)
        &&& joins_below(self.link_innovations@, self.innovation_counter)
    }

    /// The genome holds nothing that this state has given out in this
    /// generation or may give out next.
    pub open spec fn is_ahead_of(&self, genome: &Genome) -> bool {
        &&& counters_cover(self.node_counter, self.innovation_counter, genome)
        &&& splits_unused(self.node_innovations@, genome)
        &&& joins_unused(self.link_innovations@, genome)
    }

    /// The counters can give out one more node identity and two more
    /// innovation numbers.
    pub open spec fn has_room(&self) -> bool {
        self.node_counter < usize::MAX && self.innovation_counter + 2 <= u64::MAX
    }

    /// This state has the counters and records of `other`.
    pub open spec fn agrees_with(&self, other: &State) -> bool {
        &&& self.node_counter == other.node_counter
        &&& self.innovation_counter == other.innovation_counter
        &&& self.node_innovations@ == other.node_innovations@
        &&& self.link_innovations@ == other.link_innovations@
    }

    /// This state has come from `earlier` within one generation: the
    /// counters have not fallen, every record of `earlier` stands unchanged,
    /// and what the further records gave out came from the counters of
    /// `earlier` or later.
    pub open spec fn extends(&self, earlier: &State) -> bool {
        &&& earlier.node_counter <= self.node_counter
        &&& earlier.innovation_counter <= self.innovation_counter
        &&& forall|k: NewNodeInnovation| #[trigger]
            earlier.node_innovations@.contains_key(k) ==> self.node_innovations@.contains_key(k)
                && self.node_innovations@[k] == earlier.node_innovations@[k]
        &&& forall|k: NewNodeInnovation| #[trigger]
            self.node_innovations@.contains_key(k) && !earlier.node_innovations@.contains_key(k)
                ==> earlier.node_counter <= self.node_innovations@[k].0
                && earlier.innovation_counter <= self.node_innovations@[k].1
                && earlier.innovation_counter <= self.node_innovations@[k].2
                && self.node_innovations@[k].1 != self.node_innovations@[k].2
        &&& forall|k: NewLinkInnovation| #[trigger]
            earlier.link_innovations@.contains_key(k) ==> self.link_innovations@.contains_key(k)
                && self.link_innovations@[k] == earlier.link_innovations@[k]
        &&& forall|k: NewLinkInnovation| #[trigger]
            self.link_innovations@.contains_key(k) && !earlier.link_innovations@.contains_key(k)
                ==> earlier.innovation_counter <= self.link_innovations@[k]
    }
}

/// A state that has come from one that was ahead of a genome is ahead of it
/// too.
pub proof fn lemma_extension_stays_ahead(earlier: &State, later: &State, genome: &Genome)
    requires
        earlier.is_ahead_of(genome),
        later.extends(earlier),
    ensures
        later.is_ahead_of(genome),
{
    assert forall|k: NewNodeInnovation| #[trigger]
        later.node_innovations@.contains_key(k) implies !contains_node(
        genome.nodes@,
        later.node_innovations@[k].0,
    ) && !contains_innovation(genome.links@, later.node_innovations@[k].1)
        && !contains_innovation(genome.links@, later.node_innovations@[k].2)
        && later.node_innovations@[k].1 != later.node_innovations@[k].2 by {
        if !earlier.node_innovations@.contains_key(k) {
        }
    }
    assert forall|k: NewLinkInnovation| #[trigger]
        later.link_innovations@.contains_key(k) implies !contains_innovation(
        genome.links@,
        later.link_innovations@[k],
    ) by {
        if !earlier.link_innovations@.contains_key(k) {
        }
    }
}

/// A state is ahead of every genome that has the nodes and, link by link,
/// the innovation numbers of a genome that it is ahead of.
pub proof fn lemma_same_markings_stay_behind(state: &State, model: &Genome, genome: &Genome)
    requires
        state.is_ahead_of(model),
        genome.nodes@ == model.nodes@,
        genome.links@.len() == model.links@.len(),
        forall|i: int|
            0 <= i < model.links@.len() ==> (#[trigger] genome.links@[i]).innovation
                == model.links@[i].innovation,
    ensures
        state.is_ahead_of(genome),
{
    assert forall|x: u64| contains_innovation(genome.links@, x) implies contains_innovation(
        model.links@,
        x,
    ) by {
        let k = choose|k: int|
            0 <= k < genome.links@.len() && (#[trigger] genome.links@[k]).innovation == x;
        assert(model.links@[k].innovation == x);
    }
    assert forall|i: int| 0 <= i < genome.links@.len() implies (
    #[trigger] genome.links@[i]).innovation < state.innovation_counter by {
        assert(model.links@[i].innovation < state.innovation_counter);
    }
}

/// Counters that cover a genome cover it when they have risen.
pub proof fn lemma_cover_rises(
    node_counter: usize,
    innovation_counter: u64,
    higher_node_counter: usize,
    higher_innovation_counter: u64,
    genome: &Genome,
)
    requires
        counters_cover(node_counter, innovation_counter, genome),
        node_counter <= higher_node_counter,
        innovation_counter <= higher_innovation_counter,
    ensures
        counters_cover(higher_node_counter, higher_innovation_counter, genome),
{
}

/// A state with nothing recorded is ahead of every genome that its counters
/// cover.
pub proof fn lemma_fresh_state_is_ahead(state: &State, genome: &Genome)
    requires
        state.node_innovations@ == Map::<NewNodeInnovation, (NodeId, u64, u64)>::empty(),
        state.link_innovations@ == Map::<NewLinkInnovation, u64>::empty(),
        counters_cover(state.node_counter, state.innovation_counter, genome),
    ensures
        state.is_ahead_of(genome),
{
}

/// Coming from an earlier state carries over: a state that extends one that
/// extends a third extends the third.
pub proof fn lemma_extends_carries_over(first: &State, second: &State, third: &State)
    requires
        second.extends(first),
        third.extends(second),
    ensures
        third.extends(first),
{
    assert forall|k: NewNodeInnovation| #[trigger]
        third.node_innovations@.contains_key(k) && !first.node_innovations@.contains_key(
            k,
        ) implies first.node_counter <= third.node_innovations@[k].0 && first.innovation_counter
        <= third.node_innovations@[k].1 && first.innovation_counter
        <= third.node_innovations@[k].2 && third.node_innovations@[k].1
        != third.node_innovations@[k].2 by {
        if second.node_innovations@.contains_key(k) {
        }
    }
    assert forall|k: NewLinkInnovation| #[trigger]
        third.link_innovations@.contains_key(k) && !first.link_innovations@.contains_key(
            k,
        ) implies first.innovation_counter <= third.link_innovations@[k] by {
        if second.link_innovations@.contains_key(k) {
        }
    }
}

/// Innovation stability of splits: where the same link is split twice in
/// one generation, in whatever genomes, both splits make a node of the same
/// identity and give the two new links the same innovation numbers.
pub proof fn lemma_equal_splits_get_equal_ids(
    first_before: &Genome,
    first_index: int,
    first_earlier: &State,
    first_after: &Genome,
    first_later: &State,
    second_before: &Genome,
    second_index: int,
    second_earlier: &State,
    second_after: &Genome,
    second_later: &State,
)
    requires
        is_split(
            first_before,
            first_index,
            first_earlier.node_innovations@,
            first_earlier.node_counter,
            first_earlier.innovation_counter,
            first_after,
            first_later.node_innovations@,
            first_later.node_counter,
            first_later.innovation_counter,
        ),
        second_earlier.extends(first_later),
        is_split(
            second_before,
            second_index,
            second_earlier.node_innovations@,
            second_earlier.node_counter,
            second_earlier.innovation_counter,
            second_after,
            second_later.node_innovations@,
            second_later.node_counter,
            second_later.innovation_counter,
        ),
        split_key(first_before.links@[first_index]) == split_key(
            second_before.links@[second_index],
        ),
    ensures
        split_ids(
            second_earlier.node_innovations@,
            split_key(second_before.links@[second_index]),
            second_earlier.node_counter,
            second_earlier.innovation_counter,
        ) == split_ids(
            first_earlier.node_innovations@,
            split_key(first_before.links@[first_index]),
            first_earlier.node_counter,
            first_earlier.innovation_counter,
        ),
        second_after.nodes@.last() == first_after.nodes@.last(),
{
    let key = split_key(first_before.links@[first_index]);
    assert(first_later.node_innovations@.contains_key(key));
}

/// Innovation stability of new links: where a link between the same nodes
/// with the same recurrence is added twice in one generation, in whatever
/// genomes, both links get the same innovation number.
pub proof fn lemma_equal_joins_get_equal_innovation(
    first_before: &Genome,
    first_weight: i64,
    first_earlier: &State,
    first_after: &Genome,
    first_later: &State,
    second_before: &Genome,
    second_weight: i64,
    second_earlier: &State,
    second_after: &Genome,
    second_later: &State,
    from_id: NodeId,
    to_id: NodeId,
    recurrent: bool,
)
    requires
        is_join(
            first_before,
            from_id,
            to_id,
            recurrent,
            first_weight,
            first_earlier.link_innovations@,
            first_earlier.innovation_counter,
            first_after,
            first_later.link_innovations@,
            first_later.innovation_counter,
        ),
        second_earlier.extends(first_later),
        is_join(
            second_before,
            from_id,
            to_id,
            recurrent,
            second_weight,
            second_earlier.link_innovations@,
            second_earlier.innovation_counter,
            second_after,
            second_later.link_innovations@,
            second_later.innovation_counter,
        ),
    ensures
        join_id(
            second_earlier.link_innovations@,
            NewLinkInnovation { from_id, to_id, is_recurrent: recurrent },
            second_earlier.innovation_counter,
        ) == join_id(
            first_earlier.link_innovations@,
            NewLinkInnovation { from_id, to_id, is_recurrent: recurrent },
            first_earlier.innovation_counter,
        ),
{
    let key = NewLinkInnovation { from_id, to_id, is_recurrent: recurrent };
    assert(first_later.link_innovations@.contains_key(key));
}

/// A link of the genome was split: see [`is_split`]. The records of new
/// links stand unchanged.
pub open spec fn split_applied(
    before: &Genome,
    earlier: &State,
    after: &Genome,
    later: &State,
) -> bool {
    &&& later.link_innovations@ == earlier.link_innovations@
    &&& exists|index: int|
        0 <= index < before.links@.len() && (#[trigger] before.links@[index]).enabled && is_split(
            before,
            index,
            earlier.node_innovations@,
            earlier.node_counter,
            earlier.innovation_counter,
            after,
            later.node_innovations@,
            later.node_counter,
            later.innovation_counter,
        )
}

/// A link that fits was added to the genome: see [`is_join`]. The records
/// of splits and the node counter stand unchanged.
pub open spec fn join_applied(
    before: &Genome,
    earlier: &State,
    recurrent_link_prob: Prob,
    after: &Genome,
    later: &State,
) -> bool {
    &&& later.node_innovations@ == earlier.node_innovations@
    &&& later.node_counter == earlier.node_counter
    &&& exists|from_id: NodeId, to_id: NodeId, recurrent: bool, weight: i64|
        #![trigger fits(before, from_id, to_id, recurrent), is_join(before, from_id, to_id, recurrent, weight, earlier.link_innovations@, earlier.innovation_counter, after, later.link_innovations@, later.innovation_counter)]
        contains_node(before.nodes@, from_id) && contains_node(before.nodes@, to_id)
            && receptive_node(before.nodes@, to_id) && may_recur(recurrent_link_prob, recurrent)
            && fits(before, from_id, to_id, recurrent) && -ONE < weight < ONE && is_join(
            before,
            from_id,
            to_id,
            recurrent,
            weight,
            earlier.link_innovations@,
            earlier.innovation_counter,
            after,
            later.link_innovations@,
            later.innovation_counter,
        )
}

/// The genome kept its nodes and, at each position, a link between the same
/// nodes with the same innovation number and recurrence; weights and
/// enabled states may have changed.
pub open spec fn adjusted(before: &Genome, after: &Genome) -> bool {
    &&& after.nodes@ == before.nodes@
    &&& after.links@.len() == before.links@.len()
    &&& forall|i: int|
        0 <= i < before.links@.len() ==> (#[trigger] after.links@[i]).from_id
            == before.links@[i].from_id && after.links@[i].to_id == before.links@[i].to_id
            && after.links@[i].innovation == before.links@[i].innovation
            && after.links@[i].is_recurrent == before.links@[i].is_recurrent
}

/// One link of `after` has changed its enabled status as against `before`,
/// or `before` has no link and `after` neither.
pub open spec fn toggle_outcome(before: Seq<Link>, after: Seq<Link>) -> bool {
    (before.len() == 0 && after == before) || exists|index: int|
        0 <= index < before.len() && after == #[trigger] toggled(before, index)
}

/// `after` is what the third way of mutation may make of `before`: first,
/// with the probability `toggle_enable_prob`, one link changes its enabled
/// status; then, with the probability `change_link_weights_prob`, the
/// weights undergo the standard mutation at the rate one and with the power
/// `change_link_weights_power`.
pub open spec fn adjusted_by(before: Seq<Link>, settings: &Settings, after: Seq<Link>) -> bool {
    exists|middle: Seq<Link>| #[trigger] adjusted_through(before, middle, settings, after)
}

/// The third way of mutation leads from `before` by `middle` to `after`.
pub open spec fn adjusted_through(
    before: Seq<Link>,
    middle: Seq<Link>,
    settings: &Settings,
    after: Seq<Link>,
) -> bool {
    &&& (settings.toggle_enable_prob < ONE && middle == before) || (settings.toggle_enable_prob > 0
        && toggle_outcome(before, middle))
    &&& (settings.change_link_weights_prob < ONE && after == middle) || (
    settings.change_link_weights_prob > 0 && exists|severe: bool| #[trigger]
        standard_outcomes(middle, after, severe, 1_000_000, settings.change_link_weights_power))
}

/// The outcome of a mutation: a link was split, or a link was added, or
/// nothing has changed because there was no link to split or none was found
/// to add, or the genome has undergone the third way of mutation; each
/// only where the probabilities of the settings let it happen.
pub open spec fn mutated(
    before: &Genome,
    earlier: &State,
    settings: &Settings,
    after: &Genome,
    later: &State,
) -> bool {
    let same = after.nodes@ == before.nodes@ && after.links@ == before.links@
        && later.agrees_with(earlier);
    ||| settings.new_node_prob > 0 && split_applied(before, earlier, after, later)
    ||| settings.new_node_prob > 0 && !has_enabled_link(before.links@) && same
    ||| settings.new_node_prob < ONE && settings.new_link_prob > 0 && (join_applied(
        before,
        earlier,
        settings.recurrent_link_prob,
        after,
        later,
    ) || same)
    ||| settings.new_node_prob < ONE && settings.new_link_prob < ONE && after.nodes@
        == before.nodes@ && adjusted_by(before.links@, settings, after.links@)
        && later.agrees_with(earlier)
}

/// One of the links is enabled.
pub open spec fn has_enabled_link(links: Seq<Link>) -> bool {
    exists|i: int| 0 <= i < links.len() && (#[trigger] links[i]).enabled
}

/// Mutates a genome in one of three ways. With the probability
/// `new_node_prob` a link is split through a new node. Else, with the
/// probability `new_link_prob`, a link is added, in up to thirty tries.
/// Else, each with its own probability, one link changes its enabled status
/// and the link weights undergo the standard mutation.
pub fn mutate(genome: &mut Genome, settings: &Settings, rng: &mut rand::StdRng, state: &mut State)
    requires
        old(genome).wf(),
        old(state).wf(),
        old(state).is_ahead_of(old(genome)),
        old(state).has_room(),
    ensures
        final(genome).wf(),
        crate::genes::innovations_increasing(final(genome).links@),
        crate::genes::link_pairs_unique(final(genome).links@),
        crate::genes::endpoints_present(final(genome).nodes@, final(genome).links@),
        crate::genes::targets_receptive(final(genome).nodes@, final(genome).links@),
        final(state).wf(),
        final(state).extends(old(state)),
        final(state).node_counter <= old(state).node_counter + 1,
        final(state).innovation_counter <= old(state).innovation_counter + 2,
        counters_cover(final(state).node_counter, final(state).innovation_counter, final(genome)),
        mutated(old(genome), old(state), settings, final(genome), final(state)),
        split_applied(old(genome), old(state), final(genome), final(state)) || join_applied(
            old(genome),
            old(state),
            settings.recurrent_link_prob,
            final(genome),
            final(state),
        ) || (adjusted(old(genome), final(genome)) && final(state).agrees_with(old(state))),
        settings.new_node_prob >= ONE && (exists|i: int|
            0 <= i < old(genome).links@.len() && (#[trigger] old(genome).links@[i]).enabled)
            ==> split_applied(old(genome), old(state), final(genome), final(state)),
        settings.new_node_prob == 0 && settings.new_link_prob == 0 ==> final(genome).nodes@ == old(genome).nodes@ && adjusted_by(old(genome).links@, settings, final(genome).links@) && adjusted(
            old(genome),
            final(genome),
        ) && final(state).agrees_with(old(state)),
{
    if chance(rng, settings.new_node_prob) {
        new_node(
            genome,
            rng,
            &mut state.node_innovations,
            &mut state.innovation_counter,
            &mut state.node_counter,
        );
    } else if chance(rng, settings.new_link_prob) {
        new_link(
            genome,
            rng,
            &mut state.link_innovations,
            &mut state.innovation_counter,
            settings.recurrent_link_prob,
            settings.self_link_prob,
            30,
        );
    } else {
        let toggle = chance(rng, settings.toggle_enable_prob);
        if toggle {
            toggle_enable(genome, rng);
        }
        let ghost middle = genome.links@;
        proof {
            assert((settings.toggle_enable_prob < ONE && middle == old(genome).links@) || (
            settings.toggle_enable_prob > 0 && toggle_outcome(old(genome).links@, middle)));
        }
        let reweigh = chance(rng, settings.change_link_weights_prob);
        if reweigh {
            change_link_weights_standard(
                genome,
                rng,
                1_000_000,
                settings.change_link_weights_power,
            );
            proof {
                assert forall|i: int| 0 <= i < middle.len() implies (#[trigger] genome.links@[i]).from_id
                    == middle[i].from_id && genome.links@[i].to_id == middle[i].to_id
                    && genome.links@[i].innovation == middle[i].innovation
                    && genome.links@[i].is_recurrent == middle[i].is_recurrent by {
                    assert(weight_evolved(
                        middle[i],
                        genome.links@[i],
                        settings.change_link_weights_power,
                    ));
                }
            }
        }
        proof {
            let before = old(genome).links@;
            let after = genome.links@;
            assert((settings.toggle_enable_prob < ONE && middle == before) || (
            settings.toggle_enable_prob > 0 && toggle_outcome(before, middle)));
            assert((settings.change_link_weights_prob < ONE && after == middle) || (
            settings.change_link_weights_prob > 0 && exists|severe: bool| #[trigger]
                standard_outcomes(
                    middle,
                    after,
                    severe,
                    1_000_000,
                    settings.change_link_weights_power,
                )));
            assert(adjusted_through(before, middle, settings, after));
        }
    }
}

} // verus!
