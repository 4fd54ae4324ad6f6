//! Organisms, species and the population: fitness sharing, the allotment of
//! offspring, reproduction and speciation.

use crate::fixed::ONE;
use crate::genes::{compatibility, compatibility_of, CompatCoefficients, Genome, Link};
use crate::mating::multipoint;
use crate::mutation::{
    change_link_weights_reset_all, change_link_weights_standard, counters_cover,
    lemma_cover_rises, lemma_extension_stays_ahead, lemma_fresh_state_is_ahead,
    lemma_same_markings_stay_behind, mutate, weight_evolved, weight_mutated, weights_evolved,
    LinkMutation, State,
};
use crate::nn::{built, same_topology, Network};
use crate::random::{below, chance};
use vstd::prelude::*;
use vstd::seq_lib::{to_multiset_insert, to_multiset_remove};

verus! {

/// The least fitness that an organism is taken to have: a thousandth.
pub const MIN_FITNESS: u64 = 1_000;

/// The divisor that the stagnation penalty applies to adjusted fitness.
pub const STAGNATION_DIVISOR: u64 = 100;

/// The step by which the compatibility threshold is tuned, and its least
/// value: three tenths.
pub const THRESHOLD_STEP: u64 = 300_000;

/// The tunables of a population. The survival threshold and the
/// compatibility threshold are fixed-point numbers in millionths.
#[derive(Clone, Copy, PartialEq, Eq, Debug, Structural)]
pub struct Settings {
    pub survival_threshold: u32,
    pub compat_threshold: u64,
    pub dropoff_age: usize,
    pub target_num_species: usize,
}

/// The default tunables, as a value for contracts.
pub open spec fn default_settings() -> Settings {
    Settings {
        survival_threshold: 300_000,
        compat_threshold: 6_000_000,
        dropoff_age: 15,
        target_num_species: 10,
    }
}

/// The default weights of the compatibility distance, as a value for
/// contracts.
pub open spec fn default_compat_coefficients() -> CompatCoefficients {
    CompatCoefficients { disjoint: 1_000_000, excess: 1_000_000, weight_diff: 400_000 }
}

/// The default tunables.
pub fn standard_settings() -> (settings: Settings)
    ensures
        settings == (Settings {
            survival_threshold: 300_000,
            compat_threshold: 6_000_000,
            dropoff_age: 15,
            target_num_species: 10,
        }),
{
    Settings {
        survival_threshold: 300_000,
        compat_threshold: 6_000_000,
        dropoff_age: 15,
        target_num_species: 10,
    }
}

/// The default weights of the compatibility distance.
pub fn standard_compat_coefficients() -> (c: CompatCoefficients)
    ensures
        c == (CompatCoefficients { disjoint: 1_000_000, excess: 1_000_000, weight_diff: 400_000 }),
{
    CompatCoefficients { disjoint: 1_000_000, excess: 1_000_000, weight_diff: 400_000 }
}

/// An organism: a genome, the network built from it, and its fitness.
/// Fitness values are fixed-point numbers in millionths.
#[derive(Clone, Debug)]
pub struct Organism {
    pub genome: Genome,
    pub network: Network,
    pub fitness: u64,
    pub adj_fitness: u64,
    pub expected_offspring: u64,
}

impl Organism {
    /// The genome has its integrity and the network has the nodes and links
    /// of the genome.
    pub open spec fn wf(&self) -> bool {
        &&& self.genome.wf()
        &&& self.network.wf()
        &&& same_topology(self.network@, built(self.genome.nodes@, self.genome.links@))
    }

    /// An organism with a copy of the genome and the network built from it,
    /// without fitness.
    pub fn new(genome: &Genome) -> (organism: Organism)
        requires
            genome.wf(),
        ensures
            organism.genome.nodes@ == genome.nodes@,
            organism.genome.links@ == genome.links@,
            organism.network@ == built(genome.nodes@, genome.links@),
            organism.fitness == 0,
            organism.adj_fitness == 0,
            organism.expected_offspring == 0,
            organism.wf(),
    {
        Organism {
            genome: genome.duplicate(),
            network: Network::from_genome(genome),
            fitness: 0,
            adj_fitness: 0,
            expected_offspring: 0,
        }
    }
}

/// A species: its organisms, the genome that new organisms are compared
/// with, and its bookkeeping.
#[derive(Debug)]
pub struct Species {
    pub organisms: Vec<Organism>,
    pub id: usize,
    pub expected_offspring: usize,
    pub age: usize,
    pub highest_fitness: u64,
    pub time_since_last_improvement: usize,
    pub best_genome: Genome,
    pub best_offspring: usize,
}

/// The sum of the adjusted fitness of the first `n` organisms.
pub open spec fn adj_fitness_sum(organisms: Seq<Organism>, n: int) -> int
    decreases n,
{
    if n <= 0 {
        0
    } else {
        adj_fitness_sum(organisms, n - 1) + organisms[n - 1].adj_fitness
    }
}

/// The sum of the adjusted fitness of `n` organisms is at most `n` times
/// the largest value.
pub proof fn lemma_adj_fitness_sum_bounded(organisms: Seq<Organism>, n: int)
    requires
        0 <= n <= organisms.len(),
    ensures
        0 <= adj_fitness_sum(organisms, n) <= n * u64::MAX,
    decreases n,
{
    if n > 0 {
        lemma_adj_fitness_sum_bounded(organisms, n - 1);
        assert((n - 1) * u64::MAX + u64::MAX == n * u64::MAX) by (nonlinear_arith);
    }
}

/// Where each adjusted fitness, taken `size` times, stays within the
/// largest value, the sum of `n` of them, taken `size` times, stays within
/// `n` times the largest value.
pub proof fn lemma_shares_sum(organisms: Seq<Organism>, size: int, n: int)
    requires
        0 <= n <= organisms.len(),
        size >= 0,
        forall|k: int|
            0 <= k < organisms.len() ==> (#[trigger] organisms[k]).adj_fitness * size <= u64::MAX,
    ensures
        adj_fitness_sum(organisms, n) * size <= n * u64::MAX,
    decreases n,
{
    if n > 0 {
        lemma_shares_sum(organisms, size, n - 1);
        let before = adj_fitness_sum(organisms, n - 1);
        let last = organisms[n - 1].adj_fitness as int;
        assert((before + last) * size == before * size + last * size) by (nonlinear_arith);
        assert((n - 1) * u64::MAX + u64::MAX == n * u64::MAX) by (nonlinear_arith);
    }
}

/// The sum of adjusted fitness depends only on the organisms counted.
pub proof fn lemma_adj_fitness_sum_prefix(a: Seq<Organism>, b: Seq<Organism>, n: int)
    requires
        0 <= n <= a.len(),
        n <= b.len(),
        forall|k: int| 0 <= k < n ==> (#[trigger] a[k]).adj_fitness == b[k].adj_fitness,
    ensures
        adj_fitness_sum(a, n) == adj_fitness_sum(b, n),
    decreases n,
{
    if n > 0 {
        lemma_adj_fitness_sum_prefix(a, b, n - 1);
    }
}

/// The fitness that an organism is taken to have: a fitness of zero counts
/// as a thousandth.
pub open spec fn floored_fitness(fitness: u64) -> u64 {
    if fitness == 0 {
        MIN_FITNESS
    } else {
        fitness
    }
}

/// The adjusted fitness of an organism in a species of `size` organisms:
/// its share of its fitness, cut to a hundredth where the species is
/// penalized.
pub open spec fn shared_fitness(fitness: u64, size: int, penalize: bool) -> int {
    let share = floored_fitness(fitness) / (size as u64);
    if penalize {
        share as int / STAGNATION_DIVISOR as int
    } else {
        share as int
    }
}

/// The organism with its fitness floored and its adjusted fitness set.
pub open spec fn prepared(organism: Organism, size: int, penalize: bool) -> Organism {
    Organism {
        genome: organism.genome,
        network: organism.network,
        fitness: floored_fitness(organism.fitness),
        adj_fitness: shared_fitness(organism.fitness, size, penalize) as u64,
        expected_offspring: organism.expected_offspring,
    }
}

/// The adjusted fitness does not rise along the list.
pub open spec fn sorted_by_adj_fitness(organisms: Seq<Organism>) -> bool {
    forall|i: int, j: int|
        0 <= i < j < organisms.len() ==> (#[trigger] organisms[i]).adj_fitness >= (
        #[trigger] organisms[j]).adj_fitness
}

/// The number of organisms of a species of `size` that may become parents:
/// the survival threshold's share of them, rounded down, and one more.
pub open spec fn elite_size(size: int, survival_threshold: u32) -> int {
    (survival_threshold * size) / (ONE as int) + 1
}

/// The number of offspring, in millionths, that a species with the summed
/// adjusted fitness `sum` is owed at the average `average`: their quotient,
/// and nothing where the average is zero.
pub open spec fn offspring_owed(sum: int, average: u64) -> int {
    if average == 0 {
        0
    } else {
        (sum * ONE) / (average as int)
    }
}

/// The lesser of two integers.
pub open spec fn lesser(a: int, b: int) -> int {
    if a <= b {
        a
    } else {
        b
    }
}

/// The organism `a` ranks above the organism `b`: its adjusted fitness is
/// higher, or the same with a higher fitness.
pub open spec fn outranks(a: Organism, b: Organism) -> bool {
    a.adj_fitness > b.adj_fitness || (a.adj_fitness == b.adj_fitness && a.fitness > b.fitness)
}

/// No organism ranks above one that stands before it.
pub open spec fn sorted_by_rank(organisms: Seq<Organism>) -> bool {
    forall|i: int, j: int|
        0 <= i < j < organisms.len() ==> !outranks(#[trigger] organisms[j], #[trigger] organisms[i])
}

/// The place of the organism `key` in a list sorted by rank: behind all
/// organisms that it does not rank above.
pub open spec fn place_for(sorted: Seq<Organism>, key: Organism) -> int
    decreases sorted.len(),
{
    if sorted.len() == 0 {
        0
    } else if outranks(key, sorted.last()) {
        place_for(sorted.drop_last(), key)
    } else {
        sorted.len() as int
    }
}

/// The first `n` organisms sorted by falling adjusted fitness and, among
/// organisms of equal adjusted fitness, by falling fitness; organisms that
/// are equal in both keep their order. Each in turn takes its place among
/// those before it.
pub open spec fn stably_sorted(organisms: Seq<Organism>, n: int) -> Seq<Organism>
    decreases n,
{
    if n <= 0 {
        Seq::empty()
    } else {
        let before = stably_sorted(organisms, n - 1);
        before.insert(place_for(before, organisms[n - 1]), organisms[n - 1])
    }
}

/// Whether an organism with the given adjusted fitness and fitness ranks
/// above `other`.
fn ranks_above(adj_fitness: u64, fitness: u64, other: &Organism) -> (above: bool)
    ensures
        above == (adj_fitness > other.adj_fitness || (adj_fitness == other.adj_fitness && fitness
            > other.fitness)),
{
    adj_fitness > other.adj_fitness || (adj_fitness == other.adj_fitness && fitness > other.fitness)
}

/// Sorts organisms by falling adjusted fitness and, among organisms of equal
/// adjusted fitness, by falling fitness; organisms that are equal in both
/// keep their order.
pub fn sort_by_adj_fitness(organisms: &mut Vec<Organism>)
    ensures
        final(organisms)@ == stably_sorted(old(organisms)@, old(organisms)@.len() as int),
        final(organisms)@.to_multiset() == old(organisms)@.to_multiset(),
        final(organisms)@.len() == old(organisms)@.len(),
        sorted_by_rank(final(organisms)@),
        sorted_by_adj_fitness(final(organisms)@),
{
    let ghost start = organisms@;
    if organisms.len() == 0 {
        assert(organisms@ =~= stably_sorted(start, 0));
        return ;
    }
    let mut j: usize = 1;
    proof {
        start.to_multiset_ensures();
        assert(stably_sorted(start, 0) =~= Seq::<Organism>::empty());
        assert(place_for(Seq::<Organism>::empty(), start[0]) == 0);
        assert(stably_sorted(start, 1) =~= seq![start[0]]);
        assert(organisms@ =~= stably_sorted(start, 1) + start.skip(1));
    }
    while j < organisms.len()
        invariant
            1 <= j <= organisms@.len(),
            start == old(organisms)@,
            organisms@.len() == start.len(),
            organisms@.to_multiset() == start.to_multiset(),
            stably_sorted(start, j as int).len() == j,
            organisms@ == stably_sorted(start, j as int) + start.skip(j as int),
            forall|a: int, b: int|
                0 <= a < b < j ==> !outranks(#[trigger] organisms@[b], #[trigger] organisms@[a]),
        decreases organisms@.len() - j,
    {
        let key_adj_fitness = organisms[j].adj_fitness;
        let key_fitness = organisms[j].fitness;
        let ghost key = organisms@[j as int];
        let ghost sorted = stably_sorted(start, j as int);
        let mut position: usize = j;
        assert(sorted.take(j as int) =~= sorted);
        while position > 0 && ranks_above(key_adj_fitness, key_fitness, &organisms[position - 1])
            invariant
                position <= j < organisms@.len(),
                sorted.len() == j,
                key == organisms@[j as int],
                key_adj_fitness == key.adj_fitness,
                key_fitness == key.fitness,
                forall|k: int| 0 <= k < j ==> organisms@[k] == #[trigger] sorted[k],
                forall|k: int| position <= k < j ==> outranks(key, #[trigger] organisms@[k]),
                place_for(sorted, key) == place_for(sorted.take(position as int), key),
            decreases position,
        {
            proof {
                let shorter = sorted.take(position as int);
                assert(shorter.last() == sorted[position - 1]);
                assert(shorter.drop_last() =~= sorted.take(position - 1));
            }
            position -= 1;
        }
        proof {
            let shorter = sorted.take(position as int);
            if position > 0 {
                assert(shorter.last() == sorted[position - 1]);
            }
            assert(place_for(shorter, key) == position);
            assert(start.skip(j as int)[0] == start[j as int]);
            assert(organisms@[j as int] == start[j as int]);
        }
        let ghost before = organisms@;
        if position < j {
            let organism = organisms.remove(j);
            let ghost without = organisms@;
            organisms.insert(position, organism);
            proof {
                to_multiset_remove(before, j as int);
                to_multiset_insert(without, position as int, organism);
                assert(before.to_multiset().remove(before[j as int]).insert(before[j as int])
                    =~= before.to_multiset()) by {
                    before.to_multiset_ensures();
                    assert(before.to_multiset().count(before[j as int]) > 0) by {
                        assert(before.contains(before[j as int]));
                    }
                }
                assert forall|a: int, b: int| 0 <= a < b < j + 1 implies !outranks(
                    #[trigger] organisms@[b],
                    #[trigger] organisms@[a],
                ) by {
                    let pa = if a < position { a } else { a - 1 };
                    let pb = if b < position { b } else { b - 1 };
                    if a == position {
                        assert(organisms@[b] == before[b - 1]);
                        assert(outranks(key, before[b - 1]));
                    } else if b == position {
                        assert(organisms@[a] == before[a]);
                        if position > 0 {
                            assert(!outranks(key, before[position - 1]));
                            if a < position - 1 {
                                assert(!outranks(before[position - 1], before[a]));
                            }
                        }
                    } else {
                        assert(organisms@[a] == before[pa]);
                        assert(organisms@[b] == before[pb]);
                        assert(!outranks(before[pb], before[pa]));
                    }
                }
            }
        } else {
            proof {
                assert forall|a: int, b: int| 0 <= a < b < j + 1 implies !outranks(
                    #[trigger] organisms@[b],
                    #[trigger] organisms@[a],
                ) by {
                    if b == j {
                        assert(!outranks(key, before[j - 1]));
                        if a < j - 1 {
                            assert(!outranks(before[j - 1], before[a]));
                        }
                    }
                }
            }
        }
        proof {
            let next = stably_sorted(start, j + 1);
            assert(next == sorted.insert(position as int, start[j as int]));
            assert(organisms@ =~= next + start.skip(j + 1)) by {
                assert forall|k: int| 0 <= k < organisms@.len() implies organisms@[k] == (next
                    + start.skip(j + 1))[k] by {
                    if k < position {
                        assert(before[k] == sorted[k]);
                    } else if k == position {
                    } else if k <= j {
                        assert(before[k - 1] == sorted[k - 1]);
                    } else {
                        assert(before[k] == start.skip(j as int)[k - j]);
                    }
                }
            }
        }
        j += 1;
    }
    proof {
        assert(start.skip(j as int) =~= Seq::<Organism>::empty());
        assert(organisms@ =~= stably_sorted(start, j as int));
        assert forall|a: int, b: int| 0 <= a < b < organisms@.len() implies (
        #[trigger] organisms@[a]).adj_fitness >= (#[trigger] organisms@[b]).adj_fitness by {
            assert(!outranks(organisms@[b], organisms@[a]));
        }
    }
}

impl Species {
    /// Every organism is sound, and the genome that stands for the species
    /// has its integrity.
    pub open spec fn wf(&self) -> bool {
        &&& self.best_genome.wf()
        &&& forall|i: int| 0 <= i < self.organisms@.len() ==> (#[trigger] self.organisms@[i]).wf()
    }

    /// A species of the given organisms, which the genome of the first
    /// stands for.
    pub fn new(id: usize, organisms: Vec<Organism>) -> (species: Species)
        requires
            organisms@.len() > 0,
        ensures
            species.id == id,
            species.organisms@ == organisms@,
            species.expected_offspring == 0,
            species.age == 0,
            species.time_since_last_improvement == 0,
            species.highest_fitness == 0,
            species.best_genome.nodes@ == organisms@[0].genome.nodes@,
            species.best_genome.links@ == organisms@[0].genome.links@,
            species.best_offspring == 0,
    {
        let best_genome = organisms[0].genome.duplicate();
        Species {
            id,
            organisms,
            expected_offspring: 0,
            age: 0,
            time_since_last_improvement: 0,
            highest_fitness: 0,
            best_genome,
            best_offspring: 0,
        }
    }

    /// The sum of the adjusted fitness of the organisms.
    pub fn total_adj_fitness(&self) -> (sum: u128)
        ensures
            sum == adj_fitness_sum(self.organisms@, self.organisms@.len() as int),
    {
        let mut sum: u128 = 0;
        let mut i: usize = 0;
        while i < self.organisms.len()
            invariant
                i <= self.organisms@.len(),
                sum == adj_fitness_sum(self.organisms@, i as int),
            decreases self.organisms@.len() - i,
        {
            proof {
                lemma_adj_fitness_sum_bounded(self.organisms@, i as int);
                assert(i * u64::MAX <= usize::MAX * u64::MAX) by (nonlinear_arith)
                    requires
                        i <= usize::MAX,
                ;
            }
            sum += self.organisms[i].adj_fitness as u128;
            i += 1;
        }
        sum
    }

    /// The mean adjusted fitness of the organisms, rounded down.
    pub fn average_adj_fitness(&self) -> (average: u64)
        requires
            self.organisms@.len() > 0,
        ensures
            average == adj_fitness_sum(self.organisms@, self.organisms@.len() as int)
                / self.organisms@.len() as int,
    {
        let sum = self.total_adj_fitness();
        let size = self.organisms.len() as u128;
        proof {
            lemma_adj_fitness_sum_bounded(self.organisms@, self.organisms@.len() as int);
            assert(sum as int / size as int <= u64::MAX) by (nonlinear_arith)
                requires
                    0 <= sum <= size * u64::MAX,
                    size > 0,
            ;
        }
        (sum / size) as u64
    }

    /// The first organism: the best one, once the species is prepared.
    pub fn best_organism(&self) -> (best: &Organism)
        requires
            self.organisms@.len() > 0,
        ensures
            *best == self.organisms@[0],
    {
        &self.organisms[0]
    }

    /// Prepares the species for an epoch. A fitness of zero is raised to a
    /// thousandth. Each organism's adjusted fitness is its fitness divided
    /// by the size of the species, and a hundredth of that where the species
    /// has gone without improvement for more than `dropoff_age` epochs. The
    /// organisms are sorted by falling adjusted fitness and, where that is
    /// equal, by falling fitness, so that the first organism is one of the
    /// fittest. The species ages by one epoch; where the fitness of its
    /// first organism exceeds its highest so far, that is recorded and the
    /// time without improvement starts anew, else it grows by one. The first
    /// organism's genome now stands for the species, and gets one offspring.
    pub fn prepare_for_epoch(&mut self, dropoff_age: usize)
        requires
            old(self).organisms@.len() > 0,
            old(self).age < usize::MAX,
            old(self).time_since_last_improvement < usize::MAX,
        ensures
            final(self).organisms@.to_multiset() == old(self).organisms@.map_values(
                |o: Organism|
                    prepared(
                        o,
                        old(self).organisms@.len() as int,
                        old(self).time_since_last_improvement > dropoff_age,
                    ),
            ).to_multiset(),
            final(self).organisms@ == stably_sorted(
                old(self).organisms@.map_values(
                    |o: Organism|
                        prepared(
                            o,
                            old(self).organisms@.len() as int,
                            old(self).time_since_last_improvement > dropoff_age,
                        ),
                ),
                old(self).organisms@.len() as int,
            ),
            final(self).organisms@.len() == old(self).organisms@.len(),
            forall|k: int|
                0 <= k < final(self).organisms@.len() ==> exists|m: int|
                    0 <= m < old(self).organisms@.len() && #[trigger] final(self).organisms@[k]
                        == prepared(
                        #[trigger] old(self).organisms@[m],
                        old(self).organisms@.len() as int,
                        old(self).time_since_last_improvement > dropoff_age,
                    ),
            adj_fitness_sum(final(self).organisms@, final(self).organisms@.len() as int)
                <= u64::MAX,
            sorted_by_adj_fitness(final(self).organisms@),
            forall|k: int|
                0 <= k < final(self).organisms@.len() ==> (#[trigger] final(self).organisms@[k]).fitness
                    <= final(self).organisms@[0].fitness,
            final(self).id == old(self).id,
            final(self).expected_offspring == old(self).expected_offspring,
            final(self).age == old(self).age + 1,
            final(self).organisms@[0].fitness > old(self).highest_fitness ==> final(self).highest_fitness == final(self).organisms@[0].fitness && final(self).time_since_last_improvement == 0,
            final(self).organisms@[0].fitness <= old(self).highest_fitness ==> final(self).highest_fitness == old(self).highest_fitness && final(self).time_since_last_improvement == old(self).time_since_last_improvement + 1,
            final(self).best_genome.nodes@ == final(self).organisms@[0].genome.nodes@,
            final(self).best_genome.links@ == final(self).organisms@[0].genome.links@,
            final(self).best_offspring == 1,
            old(self).wf() ==> final(self).wf(),
    {
        let num_organisms = self.organisms.len();
        let penalize = self.time_since_last_improvement > dropoff_age;
        let ghost wanted = old(self).organisms@.map_values(
            |o: Organism| prepared(o, num_organisms as int, penalize),
        );
        let mut i: usize = 0;
        while i < num_organisms
            invariant
                i <= num_organisms,
                num_organisms == old(self).organisms@.len(),
                self.organisms@.len() == num_organisms,
                num_organisms > 0,
                self.id == old(self).id,
                self.expected_offspring == old(self).expected_offspring,
                self.age == old(self).age,
                self.highest_fitness == old(self).highest_fitness,
                self.time_since_last_improvement == old(self).time_since_last_improvement,
                self.best_genome == old(self).best_genome,
                self.best_offspring == old(self).best_offspring,
                forall|k: int|
                    0 <= k < i ==> #[trigger] self.organisms@[k] == prepared(
                        old(self).organisms@[k],
                        num_organisms as int,
                        penalize,
                    ),
                forall|k: int|
                    i <= k < num_organisms ==> #[trigger] self.organisms@[k] == old(self).organisms@[k],
            decreases num_organisms - i,
        {
            let fitness = if self.organisms[i].fitness == 0 {
                MIN_FITNESS
            } else {
                self.organisms[i].fitness
            };
            let share = fitness / (num_organisms as u64);
            let adj_fitness = if penalize {
                share / STAGNATION_DIVISOR
            } else {
                share
            };
            self.organisms[i].fitness = fitness;
            self.organisms[i].adj_fitness = adj_fitness;
            i += 1;
        }
        assert(self.organisms@ =~= wanted);
        sort_by_adj_fitness(&mut self.organisms);
        proof {
            assert forall|k: int| 0 <= k < self.organisms@.len() implies exists|m: int|
                0 <= m < old(self).organisms@.len() && #[trigger] self.organisms@[k] == prepared(
                    #[trigger] old(self).organisms@[m],
                    num_organisms as int,
                    penalize,
                ) by {
                let x = self.organisms@[k];
                self.organisms@.to_multiset_ensures();
                wanted.to_multiset_ensures();
                assert(self.organisms@.contains(x));
                assert(self.organisms@.to_multiset().count(x) > 0);
                assert(wanted.to_multiset().count(x) > 0);
                assert(wanted.contains(x));
                let m = choose|m: int| 0 <= m < wanted.len() && wanted[m] == x;
                assert(x == prepared(old(self).organisms@[m], num_organisms as int, penalize));
            }
            assert forall|k: int| 0 <= k < self.organisms@.len() implies (
            #[trigger] self.organisms@[k]).adj_fitness * num_organisms <= u64::MAX by {
                let m = choose|m: int|
                    0 <= m < old(self).organisms@.len() && #[trigger] self.organisms@[k]
                        == prepared(
                        #[trigger] old(self).organisms@[m],
                        num_organisms as int,
                        penalize,
                    );
                let f = floored_fitness(old(self).organisms@[m].fitness) as int;
                let n = num_organisms as int;
                let share = f / n;
                assert(share * n <= f) by (nonlinear_arith)
                    requires
                        share == f / n,
                        n > 0,
                        f >= 0,
                ;
                let a = self.organisms@[k].adj_fitness as int;
                assert(0 <= a <= share);
                assert(a * n <= share * n) by (nonlinear_arith)
                    requires
                        0 <= a <= share,
                        n > 0,
                ;
            }
            assert forall|k: int| 0 <= k < self.organisms@.len() implies (
            #[trigger] self.organisms@[k]).fitness <= self.organisms@[0].fitness by {
                let mk = choose|m: int|
                    0 <= m < old(self).organisms@.len() && #[trigger] self.organisms@[k]
                        == prepared(
                        #[trigger] old(self).organisms@[m],
                        num_organisms as int,
                        penalize,
                    );
                let m0 = choose|m: int|
                    0 <= m < old(self).organisms@.len() && #[trigger] self.organisms@[0]
                        == prepared(
                        #[trigger] old(self).organisms@[m],
                        num_organisms as int,
                        penalize,
                    );
                let fk = self.organisms@[k].fitness as int;
                let f0 = self.organisms@[0].fitness as int;
                let n = num_organisms as int;
                if fk > f0 {
                    vstd::arithmetic::div_mod::lemma_div_is_ordered(f0, fk, n);
                    vstd::arithmetic::div_mod::lemma_div_is_ordered(f0 / n, fk / n, 100);
                    if k > 0 {
                        assert(!outranks(self.organisms@[k], self.organisms@[0]));
                    }
                }
            }
            lemma_shares_sum(self.organisms@, num_organisms as int, num_organisms as int);
            let total = adj_fitness_sum(self.organisms@, num_organisms as int);
            assert(total <= u64::MAX) by (nonlinear_arith)
                requires
                    total * num_organisms <= num_organisms * u64::MAX,
                    num_organisms > 0,
            ;
            if old(self).wf() {
                assert forall|k: int| 0 <= k < self.organisms@.len() implies (
                #[trigger] self.organisms@[k]).wf() by {
                    let m = choose|m: int|
                        0 <= m < old(self).organisms@.len() && #[trigger] self.organisms@[k]
                            == prepared(
                            #[trigger] old(self).organisms@[m],
                            num_organisms as int,
                            penalize,
                        );
                    assert(old(self).organisms@[m].wf());
                }
            }
        }
        self.age += 1;
        if self.organisms[0].fitness > self.highest_fitness {
            self.time_since_last_improvement = 0;
            self.highest_fitness = self.organisms[0].fitness;
        } else {
            self.time_since_last_improvement += 1;
        }
        self.best_genome = self.organisms[0].genome.duplicate();
        self.best_offspring = 1;
        proof {
            if old(self).wf() {
                assert(self.organisms@[0].wf());
            }
        }
    }

    /// Removes all organisms but the best: of a species of `n` organisms
    /// the first `elite_size(n, survival_threshold)` stay.
    pub fn prune_to_elite(&mut self, survival_threshold: u32)
        ensures
            final(self).organisms@ == old(self).organisms@.take(
                lesser(
                    old(self).organisms@.len() as int,
                    elite_size(old(self).organisms@.len() as int, survival_threshold),
                ),
            ),
            old(self).organisms@.len() >= 1 ==> final(self).organisms@.len() >= 1,
            final(self).id == old(self).id,
            final(self).expected_offspring == old(self).expected_offspring,
            final(self).age == old(self).age,
            final(self).highest_fitness == old(self).highest_fitness,
            final(self).time_since_last_improvement == old(self).time_since_last_improvement,
            final(self).best_genome == old(self).best_genome,
            final(self).best_offspring == old(self).best_offspring,
            old(self).wf() ==> final(self).wf(),
    {
        let num_organisms = self.organisms.len();
        assert(survival_threshold * num_organisms <= 0xffff_ffff * 0xffff_ffff_ffff_ffff)
            by (nonlinear_arith)
            requires
                0 <= survival_threshold <= 0xffff_ffff,
                0 <= num_organisms <= 0xffff_ffff_ffff_ffff,
        ;
        let num_parents: u128 = (survival_threshold as u128 * num_organisms as u128) / (ONE as u128)
            + 1;
        if num_parents < num_organisms as u128 {
            self.organisms.truncate(num_parents as usize);
            assert(self.organisms@ == old(self).organisms@.take(num_parents as int));
        } else {
            assert(self.organisms@ == old(self).organisms@.take(num_organisms as int));
        }
    }

    /// Allots offspring to the species by its share of the adjusted
    /// fitness: it is owed its summed adjusted fitness divided by the
    /// average. The whole part is its allotment; the fraction goes to
    /// `skim`, which carries fractions from species to species and hands out
    /// a whole offspring whenever it has reached one. Where the average is
    /// zero the species is owed nothing. An allotment beyond the largest
    /// `usize` is cut to it.
    pub fn allot_offspring(&mut self, average_adj_fitness: u64, skim: &mut u64)
        requires
            adj_fitness_sum(old(self).organisms@, old(self).organisms@.len() as int) <= u64::MAX,
        ensures
            final(self).expected_offspring == lesser(
                (offspring_owed(
                    adj_fitness_sum(old(self).organisms@, old(self).organisms@.len() as int),
                    average_adj_fitness,
                ) + *old(skim)) / (ONE as int),
                usize::MAX as int,
            ),
            *final(skim) == (offspring_owed(
                adj_fitness_sum(old(self).organisms@, old(self).organisms@.len() as int),
                average_adj_fitness,
            ) + *old(skim)) % (ONE as int),
            *final(skim) < ONE,
            final(self).organisms@ == old(self).organisms@,
            final(self).id == old(self).id,
            final(self).age == old(self).age,
            final(self).highest_fitness == old(self).highest_fitness,
            final(self).time_since_last_improvement == old(self).time_since_last_improvement,
            final(self).best_genome == old(self).best_genome,
            final(self).best_offspring == old(self).best_offspring,
    {
        proof {
            lemma_adj_fitness_sum_bounded(self.organisms@, self.organisms@.len() as int);
        }
        if average_adj_fitness == 0 {
            let whole = *skim / (ONE as u64);
            self.expected_offspring = if whole > usize::MAX as u64 {
                usize::MAX
            } else {
                whole as usize
            };
            *skim = *skim % (ONE as u64);
            return ;
        }
        let sum_adj_fitness = self.total_adj_fitness();
        proof {
            lemma_adj_fitness_sum_bounded(self.organisms@, self.organisms@.len() as int);
        }
        assert(sum_adj_fitness * ONE <= 0xffff_ffff_ffff_ffff * 1_000_000) by (nonlinear_arith)
            requires
                0 <= sum_adj_fitness <= 0xffff_ffff_ffff_ffff,
                ONE == 1_000_000,
        ;
        let owed: u128 = (sum_adj_fitness * (ONE as u128)) / (average_adj_fitness as u128);
        assert(owed <= sum_adj_fitness * ONE) by (nonlinear_arith)
            requires
                owed == (sum_adj_fitness * ONE) / (average_adj_fitness as int),
                average_adj_fitness >= 1,
                sum_adj_fitness * ONE >= 0,
        ;
        let with_skim: u128 = owed + *skim as u128;
        let whole: u128 = with_skim / (ONE as u128);
        self.expected_offspring = if whole > usize::MAX as u128 {
            usize::MAX
        } else {
            whole as usize
        };
        *skim = (with_skim % (ONE as u128)) as u64;
    }

    /// The state is ahead of the genome that stands for the species and of
    /// the genome of every organism.
    pub open spec fn is_behind(&self, state: &State) -> bool {
        &&& state.is_ahead_of(&self.best_genome)
        &&& forall|i: int|
            0 <= i < self.organisms@.len() ==> state.is_ahead_of(
                &(#[trigger] self.organisms@[i]).genome,
            )
    }

    /// The counters cover the genome that stands for the species and the
    /// genome of every organism.
    pub open spec fn is_covered(&self, node_counter: usize, innovation_counter: u64) -> bool {
        &&& counters_cover(node_counter, innovation_counter, &self.best_genome)
        &&& forall|i: int|
            0 <= i < self.organisms@.len() ==> counters_cover(
                node_counter,
                innovation_counter,
                &(#[trigger] self.organisms@[i]).genome,
            )
    }

    /// A partner from another species: a species of the pool is drawn, and
    /// one of its organisms; where the draw falls on this species or on one
    /// without organisms, the partner comes from this species.
    fn pick_partner<'a>(&'a self, pool: &'a Vec<Species>, rng: &mut rand::StdRng) -> (partner:
        &'a Organism)
        requires
            self.organisms@.len() > 0,
        ensures
            self.organisms@.contains(*partner) || holds(pool@, *partner),
    {
        if pool.len() > 0 {
            let s = below(rng, pool.len());
            if pool[s].id != self.id && pool[s].organisms.len() > 0 {
                let i = below(rng, pool[s].organisms.len());
                assert(pool@[s as int].organisms@[i as int] == pool@[s as int].organisms@[i as int]);
                return &pool[s].organisms[i];
            }
        }
        let i = below(rng, self.organisms.len());
        assert(self.organisms@[i as int] == self.organisms@[i as int]);
        &self.organisms[i]
    }

    /// Produces the offspring that the species is allotted. The first is a
    /// copy of the genome that stands for the species; the further ones, up
    /// to `best_offspring`, are copies of it with mutated weights. Each
    /// other offspring is, with the probability `mutate_only_prob`, a
    /// mutated copy of a random organism; else it is mated from two random
    /// organisms, the second with the probability `interspecies_mating_prob`
    /// drawn from the `pool` of all species, and is mutated with the
    /// probability `mutate_after_mating_prob` or where its parents are at
    /// the compatibility distance zero. In a mating the fitter parent gives
    /// the structure, the first where both are equally fit. No offspring
    /// has a fitness yet.
    pub fn reproduce(
        &self,
        pool: &Vec<Species>,
        mutation_settings: &crate::mutation::Settings,
        rng: &mut rand::StdRng,
        mutation_state: &mut State,
    ) -> (offspring: Vec<Organism>)
        requires
            self.organisms@.len() > 0,
            0 < self.best_offspring <= self.expected_offspring,
            self.wf(),
            self.is_behind(old(mutation_state)),
            forall|s: int|
                0 <= s < pool@.len() ==> (#[trigger] pool@[s]).wf() && pool@[s].is_behind(
                    old(mutation_state),
                ),
            old(mutation_state).wf(),
            old(mutation_state).node_counter + self.expected_offspring <= usize::MAX,
            old(mutation_state).innovation_counter + 2 * self.expected_offspring <= u64::MAX,
        ensures
            offspring@.len() == self.expected_offspring,
            forall|k: int|
                0 <= k < offspring@.len() ==> (#[trigger] offspring@[k]).wf() && is_fresh(offspring@[k])
                    && counters_cover(
                    final(mutation_state).node_counter,
                    final(mutation_state).innovation_counter,
                    &offspring@[k].genome,
                ),
            offspring@[0].genome.nodes@ == self.best_genome.nodes@,
            offspring@[0].genome.links@ == self.best_genome.links@,
            forall|k: int|
                1 <= k < self.best_offspring ==> (#[trigger] offspring@[k]).genome.nodes@
                    == self.best_genome.nodes@ && weights_evolved(
                    self.best_genome.links@,
                    offspring@[k].genome.links@,
                    mutation_settings.change_link_weights_power,
                ),
            forall|k: int|
                self.best_offspring <= k < offspring@.len() ==> is_bred(
                    self.organisms@,
                    pool@,
                    mutation_settings,
                    &(#[trigger] offspring@[k]).genome,
                ),
            final(mutation_state).wf(),
            final(mutation_state).extends(old(mutation_state)),
            final(mutation_state).node_counter <= old(mutation_state).node_counter
                + self.expected_offspring,
            final(mutation_state).innovation_counter <= old(mutation_state).innovation_counter + 2
                * self.expected_offspring,
    {
        let mut offspring: Vec<Organism> = Vec::new();
        let mut i: usize = 0;
        while i < self.best_offspring
            invariant
                i <= self.best_offspring <= self.expected_offspring,
                self.wf(),
                *mutation_state == *old(mutation_state),
                mutation_state.is_ahead_of(&self.best_genome),
                offspring@.len() == i,
                forall|k: int|
                    0 <= k < i ==> (#[trigger] offspring@[k]).wf() && is_fresh(offspring@[k])
                        && counters_cover(
                        mutation_state.node_counter,
                        mutation_state.innovation_counter,
                        &offspring@[k].genome,
                    ),
                i > 0 ==> offspring@[0].genome.nodes@ == self.best_genome.nodes@
                    && offspring@[0].genome.links@ == self.best_genome.links@,
                forall|k: int|
                    1 <= k < i ==> (#[trigger] offspring@[k]).genome.nodes@
                        == self.best_genome.nodes@ && weights_evolved(
                        self.best_genome.links@,
                        offspring@[k].genome.links@,
                        mutation_settings.change_link_weights_power,
                    ),
            decreases self.best_offspring - i,
        {
            if i > 0 {
                let mut genome = self.best_genome.duplicate();
                change_link_weights_standard(
                    &mut genome,
                    rng,
                    1_000_000,
                    mutation_settings.change_link_weights_power,
                );
                proof {
                    assert forall|m: int| 0 <= m < genome.links@.len() implies (
                    #[trigger] genome.links@[m]).innovation
                        == self.best_genome.links@[m].innovation by {
                        assert(weight_evolved(
                            self.best_genome.links@[m],
                            genome.links@[m],
                            mutation_settings.change_link_weights_power,
                        ));
                    }
                    lemma_same_markings_stay_behind(mutation_state, &self.best_genome, &genome);
                }
                offspring.push(Organism::new(&genome));
            } else {
                offspring.push(Organism::new(&self.best_genome));
            }
            i += 1;
        }
        while offspring.len() < self.expected_offspring
            invariant
                self.organisms@.len() > 0,
                0 < self.best_offspring <= offspring@.len() <= self.expected_offspring,
                self.wf(),
                self.is_behind(old(mutation_state)),
                forall|s: int|
                    0 <= s < pool@.len() ==> (#[trigger] pool@[s]).wf() && pool@[s].is_behind(
                        old(mutation_state),
                    ),
                old(mutation_state).node_counter + self.expected_offspring <= usize::MAX,
                old(mutation_state).innovation_counter + 2 * self.expected_offspring <= u64::MAX,
                mutation_state.wf(),
                mutation_state.extends(old(mutation_state)),
                mutation_state.node_counter <= old(mutation_state).node_counter + offspring@.len(),
                mutation_state.innovation_counter <= old(mutation_state).innovation_counter + 2
                    * offspring@.len(),
                forall|k: int|
                    0 <= k < offspring@.len() ==> (#[trigger] offspring@[k]).wf()
                        && is_fresh(offspring@[k]) && counters_cover(
                        mutation_state.node_counter,
                        mutation_state.innovation_counter,
                        &offspring@[k].genome,
                    ),
                offspring@[0].genome.nodes@ == self.best_genome.nodes@,
                offspring@[0].genome.links@ == self.best_genome.links@,
                forall|k: int|
                    1 <= k < self.best_offspring ==> (#[trigger] offspring@[k]).genome.nodes@
                        == self.best_genome.nodes@ && weights_evolved(
                        self.best_genome.links@,
                        offspring@[k].genome.links@,
                        mutation_settings.change_link_weights_power,
                    ),
                forall|k: int|
                    self.best_offspring <= k < offspring@.len() ==> is_bred(
                        self.organisms@,
                        pool@,
                        mutation_settings,
                        &(#[trigger] offspring@[k]).genome,
                    ),
            decreases self.expected_offspring - offspring@.len(),
        {
            let ghost state_before = *mutation_state;
            let ghost made = offspring@;
            let ghost mut sole = false;
            let ghost mut first: int = 0;
            let ghost mut partner = self.organisms@[0];
            let ghost mut crossing = self.best_genome;
            let ghost mut changed = false;
            let new_genome = if chance(rng, mutation_settings.mutate_only_prob) {
                let at = below(rng, self.organisms.len());
                let organism = &self.organisms[at];
                let mut new_genome = organism.genome.duplicate();
                proof {
                    sole = true;
                    first = at as int;
                    crossing = new_genome;
                    assert(self.organisms@[at as int].wf());
                    lemma_extension_stays_ahead(
                        old(mutation_state),
                        mutation_state,
                        &organism.genome,
                    );
                    lemma_same_markings_stay_behind(mutation_state, &organism.genome, &new_genome);
                }
                mutate(&mut new_genome, mutation_settings, rng, mutation_state);
                new_genome
            } else {
                let at = below(rng, self.organisms.len());
                let parent_a = &self.organisms[at];
                let parent_b = if chance(rng, mutation_settings.interspecies_mating_prob) {
                    self.pick_partner(pool, rng)
                } else {
                    let other = below(rng, self.organisms.len());
                    &self.organisms[other]
                };
                proof {
                    first = at as int;
                    partner = *parent_b;
                    assert(self.organisms@[at as int].wf());
                    assert(parent_b.wf() && old(mutation_state).is_ahead_of(&parent_b.genome));
                    lemma_extension_stays_ahead(
                        old(mutation_state),
                        mutation_state,
                        &parent_a.genome,
                    );
                    lemma_extension_stays_ahead(
                        old(mutation_state),
                        mutation_state,
                        &parent_b.genome,
                    );
                }
                let mut new_genome = if parent_a.fitness >= parent_b.fitness {
                    let child = multipoint(rng, &parent_a.genome, &parent_b.genome);
                    proof {
                        lemma_same_markings_stay_behind(mutation_state, &parent_a.genome, &child);
                    }
                    child
                } else {
                    let child = multipoint(rng, &parent_b.genome, &parent_a.genome);
                    proof {
                        lemma_same_markings_stay_behind(mutation_state, &parent_b.genome, &child);
                    }
                    child
                };
                proof {
                    crossing = new_genome;
                }
                if chance(rng, mutation_settings.mutate_after_mating_prob) || compatibility(
                    &standard_compat_coefficients(),
                    &parent_a.genome,
                    &parent_b.genome,
                ) == 0 {
                    mutate(&mut new_genome, mutation_settings, rng, mutation_state);
                    proof {
                        changed = true;
                    }
                }
                new_genome
            };
            proof {
                crate::mutation::lemma_extends_carries_over(
                    old(mutation_state),
                    &state_before,
                    mutation_state,
                );
                assert forall|k: int| 0 <= k < made.len() implies counters_cover(
                    mutation_state.node_counter,
                    mutation_state.innovation_counter,
                    &(#[trigger] made[k]).genome,
                ) by {
                    lemma_cover_rises(
                        state_before.node_counter,
                        state_before.innovation_counter,
                        mutation_state.node_counter,
                        mutation_state.innovation_counter,
                        &made[k].genome,
                    );
                }
            }
            let organism = Organism::new(&new_genome);
            proof {
                let child = &organism.genome;
                if sole || changed {
                    assert(crate::mutation::mutated(
                        &crossing,
                        &state_before,
                        mutation_settings,
                        &new_genome,
                        mutation_state,
                    ));
                    assert(is_mutation(&crossing, mutation_settings, child));
                }
                if sole {
                    assert(is_mutation(&self.organisms@[first].genome, mutation_settings, child));
                } else {
                    assert(mated_through(
                        self.organisms@[first],
                        partner,
                        crossing,
                        mutation_settings,
                        child,
                    ));
                    assert(is_mating(self.organisms@[first], partner, mutation_settings, child));
                }
                assert(is_bred(self.organisms@, pool@, mutation_settings, child));
            }
            offspring.push(organism);
            proof {
                assert forall|k: int| self.best_offspring <= k < offspring@.len() implies is_bred(
                    self.organisms@,
                    pool@,
                    mutation_settings,
                    &(#[trigger] offspring@[k]).genome,
                ) by {
                    if k < made.len() {
                        assert(offspring@[k] == made[k]);
                    }
                }
            }
        }
        offspring
    }
}


/// A population: its species, its tunables, the counters that give out
/// identities, and its record of progress.
#[derive(Debug)]
pub struct Population {
    pub settings: Settings,
    pub mutation_settings: crate::mutation::Settings,
    pub compat_coefficients: CompatCoefficients,
    pub species_counter: usize,
    pub node_counter: usize,
    pub innovation_counter: u64,
    pub species: Vec<Species>,
    pub generation: usize,
    pub highest_fitness: u64,
    pub time_since_last_improvement: usize,
}

/// The number of organisms in the first `n` species.
pub open spec fn organism_count(species: Seq<Species>, n: int) -> int
    decreases n,
{
    if n <= 0 {
        0
    } else {
        organism_count(species, n - 1) + species[n - 1].organisms@.len()
    }
}

/// The number of offspring allotted to the first `n` species.
pub open spec fn offspring_count(species: Seq<Species>, n: int) -> int
    decreases n,
{
    if n <= 0 {
        0
    } else {
        offspring_count(species, n - 1) + species[n - 1].expected_offspring
    }
}

/// The summed adjusted fitness of the organisms of the first `n` species.
pub open spec fn adj_fitness_total(species: Seq<Species>, n: int) -> int
    decreases n,
{
    if n <= 0 {
        0
    } else {
        adj_fitness_total(species, n - 1) + adj_fitness_sum(
            species[n - 1].organisms@,
            species[n - 1].organisms@.len() as int,
        )
    }
}

/// The mean of `count` values with the sum `total`, rounded up.
pub open spec fn mean_up(total: int, count: int) -> int {
    (total + count - 1) / count
}

/// The two species agree in everything but their organisms.
pub open spec fn same_bookkeeping(a: Species, b: Species) -> bool {
    &&& a.id == b.id
    &&& a.expected_offspring == b.expected_offspring
    &&& a.age == b.age
    &&& a.highest_fitness == b.highest_fitness
    &&& a.time_since_last_improvement == b.time_since_last_improvement
    &&& a.best_genome == b.best_genome
    &&& a.best_offspring == b.best_offspring
}

/// The index of the first species at or after `start` whose standing genome
/// lies at a compatibility distance below `threshold` from `links`, or the
/// number of species where there is none.
pub open spec fn first_fit(
    species: Seq<Species>,
    c: CompatCoefficients,
    threshold: u64,
    links: Seq<Link>,
    start: int,
) -> int
    decreases species.len() - start,
{
    if start < 0 || start >= species.len() {
        species.len() as int
    } else if compatibility_of(c, species[start].best_genome.links@, links) < threshold {
        start
    } else {
        first_fit(species, c, threshold, links, start + 1)
    }
}

/// The first fit lies at or after the start and within the list or at its
/// end.
pub proof fn lemma_first_fit_range(
    species: Seq<Species>,
    c: CompatCoefficients,
    threshold: u64,
    links: Seq<Link>,
    start: int,
)
    requires
        0 <= start <= species.len(),
    ensures
        start <= first_fit(species, c, threshold, links, start) <= species.len(),
    decreases species.len() - start,
{
    if start < species.len() && !(compatibility_of(c, species[start].best_genome.links@, links)
        < threshold) {
        lemma_first_fit_range(species, c, threshold, links, start + 1);
    }
}

/// The counts of organisms and of their adjusted fitness are not negative,
/// and the adjusted fitness of all organisms is at most their number times
/// the largest value.
pub proof fn lemma_counts_not_negative(species: Seq<Species>, n: int)
    requires
        0 <= n <= species.len(),
    ensures
        0 <= organism_count(species, n),
        0 <= offspring_count(species, n),
        0 <= adj_fitness_total(species, n) <= organism_count(species, n) * u64::MAX,
    decreases n,
{
    if n > 0 {
        lemma_counts_not_negative(species, n - 1);
        let organisms = species[n - 1].organisms@;
        lemma_adj_fitness_sum_bounded(organisms, organisms.len() as int);
        let before = organism_count(species, n - 1);
        let size = organisms.len() as int;
        assert((before + size) * u64::MAX == before * u64::MAX + size * u64::MAX)
            by (nonlinear_arith);
    }
}

/// The counts grow with the number of species counted.
pub proof fn lemma_counts_grow(species: Seq<Species>, m: int, n: int)
    requires
        0 <= m <= n <= species.len(),
    ensures
        organism_count(species, m) <= organism_count(species, n),
        offspring_count(species, m) <= offspring_count(species, n),
        adj_fitness_total(species, m) <= adj_fitness_total(species, n),
    decreases n - m,
{
    if m < n {
        lemma_counts_grow(species, m, n - 1);
        let organisms = species[n - 1].organisms@;
        lemma_adj_fitness_sum_bounded(organisms, organisms.len() as int);
    }
}

/// The count of organisms depends only on the species counted and the
/// sizes of their organism lists.
pub proof fn lemma_organism_count_same(a: Seq<Species>, b: Seq<Species>, n: int)
    requires
        0 <= n <= a.len(),
        n <= b.len(),
        forall|k: int|
            0 <= k < n ==> (#[trigger] a[k]).organisms@.len() == b[k].organisms@.len(),
    ensures
        organism_count(a, n) == organism_count(b, n),
    decreases n,
{
    if n > 0 {
        lemma_organism_count_same(a, b, n - 1);
    }
}

/// Where two lists of species differ in the size of one species only, their
/// counts of organisms differ by as much.
pub proof fn lemma_organism_count_differs(a: Seq<Species>, b: Seq<Species>, at: int, n: int)
    requires
        0 <= at < n <= a.len(),
        a.len() == b.len(),
        forall|k: int|
            0 <= k < n && k != at ==> (#[trigger] a[k]).organisms@.len()
                == b[k].organisms@.len(),
    ensures
        organism_count(b, n) == organism_count(a, n) + b[at].organisms@.len()
            - a[at].organisms@.len(),
    decreases n,
{
    if n - 1 == at {
        lemma_organism_count_same(a, b, n - 1);
    } else {
        lemma_organism_count_differs(a, b, at, n - 1);
    }
}

/// The count of offspring depends only on the species counted and their
/// allotments.
pub proof fn lemma_offspring_count_same(a: Seq<Species>, b: Seq<Species>, n: int)
    requires
        0 <= n <= a.len(),
        n <= b.len(),
        forall|k: int|
            0 <= k < n ==> (#[trigger] a[k]).expected_offspring == b[k].expected_offspring,
    ensures
        offspring_count(a, n) == offspring_count(b, n),
    decreases n,
{
    if n > 0 {
        lemma_offspring_count_same(a, b, n - 1);
    }
}

/// Where two lists of species differ in the allotment of one species only,
/// their counts of offspring differ by as much.
pub proof fn lemma_offspring_count_differs(a: Seq<Species>, b: Seq<Species>, at: int, n: int)
    requires
        0 <= at < n <= a.len(),
        a.len() == b.len(),
        forall|k: int|
            0 <= k < n && k != at ==> (#[trigger] a[k]).expected_offspring
                == b[k].expected_offspring,
    ensures
        offspring_count(b, n) == offspring_count(a, n) + b[at].expected_offspring
            - a[at].expected_offspring,
    decreases n,
{
    if n - 1 == at {
        lemma_offspring_count_same(a, b, n - 1);
    } else {
        lemma_offspring_count_differs(a, b, at, n - 1);
    }
}

/// The summed adjusted fitness depends only on the species counted and
/// their organisms.
pub proof fn lemma_adj_fitness_total_same(a: Seq<Species>, b: Seq<Species>, n: int)
    requires
        0 <= n <= a.len(),
        n <= b.len(),
        forall|k: int| 0 <= k < n ==> (#[trigger] a[k]).organisms@ == b[k].organisms@,
    ensures
        adj_fitness_total(a, n) == adj_fitness_total(b, n),
    decreases n,
{
    if n > 0 {
        lemma_adj_fitness_total_same(a, b, n - 1);
    }
}

/// The two species agree in everything but their allotment of offspring.
pub open spec fn same_but_allotment(a: Species, b: Species) -> bool {
    &&& a.organisms@ == b.organisms@
    &&& a.id == b.id
    &&& a.age == b.age
    &&& a.highest_fitness == b.highest_fitness
    &&& a.time_since_last_improvement == b.time_since_last_improvement
    &&& a.best_genome == b.best_genome
    &&& a.best_offspring == b.best_offspring
}

/// Among the first `n` species, `skip` left aside, the index of the first
/// whose best organism has the highest fitness; -1 where there is none.
pub open spec fn first_best(species: Seq<Species>, skip: int, n: int) -> int
    decreases n,
{
    if n <= 0 {
        -1
    } else {
        let before = first_best(species, skip, n - 1);
        if n - 1 == skip {
            before
        } else if before < 0 || species[n - 1].organisms@[0].fitness
            > species[before].organisms@[0].fitness {
            n - 1
        } else {
            before
        }
    }
}

/// The first best species lies among those looked at and is not the one
/// left aside; there is one as soon as a species other than that is looked
/// at.
pub proof fn lemma_first_best_range(species: Seq<Species>, skip: int, n: int)
    requires
        0 <= n <= species.len(),
    ensures
        -1 <= first_best(species, skip, n) < n,
        first_best(species, skip, n) != skip || skip == -1,
        first_best(species, skip, n) == -1 <==> (n == 0 || (n == 1 && skip == 0)),
    decreases n,
{
    if n > 0 {
        lemma_first_best_range(species, skip, n - 1);
    }
}

/// The number of offspring, in millionths, that the first `n` species are
/// owed together.
pub open spec fn owed_total(species: Seq<Species>, average: u64, n: int) -> int
    decreases n,
{
    if n <= 0 {
        0
    } else {
        owed_total(species, average, n - 1) + offspring_owed(
            adj_fitness_sum(species[n - 1].organisms@, species[n - 1].organisms@.len() as int),
            average,
        )
    }
}

/// The offspring that the species `i` gets by its share: the whole
/// offspring that the species up to it are owed together, less those that
/// the species before it are owed together.
pub open spec fn share_of(species: Seq<Species>, average: u64, i: int) -> int {
    owed_total(species, average, i + 1) / (ONE as int) - owed_total(species, average, i) / (
    ONE as int)
}

/// What is owed is not negative, and at the average, taken times, stays
/// within the adjusted fitness that it is owed for.
pub proof fn lemma_owed_total_bounded(species: Seq<Species>, average: u64, n: int)
    requires
        0 <= n <= species.len(),
    ensures
        0 <= owed_total(species, average, n),
        owed_total(species, average, n) * average <= adj_fitness_total(species, n) * ONE,
    decreases n,
{
    if n > 0 {
        lemma_owed_total_bounded(species, average, n - 1);
        let organisms = species[n - 1].organisms@;
        lemma_adj_fitness_sum_bounded(organisms, organisms.len() as int);
        let sum = adj_fitness_sum(organisms, organisms.len() as int);
        let owed = offspring_owed(sum, average);
        let before = owed_total(species, average, n - 1);
        let fitness_before = adj_fitness_total(species, n - 1);
        if average > 0 {
            assert(owed >= 0 && owed * average <= sum * ONE) by (nonlinear_arith)
                requires
                    owed == (sum * ONE) / (average as int),
                    average > 0,
                    sum >= 0,
                    ONE == 1_000_000,
            ;
        }
        assert((before + owed) * average == before * average + owed * average)
            by (nonlinear_arith);
        assert((fitness_before + sum) * ONE == fitness_before * ONE + sum * ONE)
            by (nonlinear_arith);
    }
}

/// At the mean adjusted fitness, rounded up, the species are owed together
/// no more offspring than there are organisms.
pub proof fn lemma_owed_within_population(species: Seq<Species>, n: int)
    requires
        0 <= n <= species.len(),
        organism_count(species, species.len() as int) > 0,
        organism_count(species, species.len() as int) * u64::MAX <= u128::MAX,
    ensures
        owed_total(
            species,
            mean_up(
                adj_fitness_total(species, species.len() as int),
                organism_count(species, species.len() as int),
            ) as u64,
            n,
        ) <= organism_count(species, species.len() as int) * ONE,
{
    let count = organism_count(species, species.len() as int);
    let total = adj_fitness_total(species, species.len() as int);
    lemma_counts_not_negative(species, species.len() as int);
    let mean = mean_up(total, count);
    assert(0 <= mean <= u64::MAX && mean * count >= total) by (nonlinear_arith)
        requires
            mean == (total + count - 1) / count,
            0 <= total <= count * u64::MAX,
            count > 0,
    ;
    let average = mean as u64;
    lemma_owed_total_bounded(species, average, n);
    lemma_counts_grow(species, n, species.len() as int);
    let owed = owed_total(species, average, n);
    let part = adj_fitness_total(species, n);
    if average == 0 {
        lemma_owed_nothing(species, n);
        assert(count * ONE >= 0) by (nonlinear_arith)
            requires
                count > 0,
                ONE == 1_000_000,
        ;
    } else {
        assert(owed <= count * ONE) by (nonlinear_arith)
            requires
                owed * average <= part * ONE,
                part <= total,
                total <= average * count,
                average > 0,
                ONE == 1_000_000,
                owed >= 0,
                count > 0,
        ;
    }
}

/// At the average zero nothing is owed.
pub proof fn lemma_owed_nothing(species: Seq<Species>, n: int)
    requires
        0 <= n <= species.len(),
    ensures
        owed_total(species, 0, n) == 0,
    decreases n,
{
    if n > 0 {
        lemma_owed_nothing(species, n - 1);
    }
}

/// What is owed depends only on the species counted and their organisms.
pub proof fn lemma_owed_total_same(a: Seq<Species>, b: Seq<Species>, average: u64, n: int)
    requires
        0 <= n <= a.len(),
        n <= b.len(),
        forall|k: int| 0 <= k < n ==> (#[trigger] a[k]).organisms@ == b[k].organisms@,
    ensures
        owed_total(a, average, n) == owed_total(b, average, n),
    decreases n,
{
    if n > 0 {
        lemma_owed_total_same(a, b, average, n - 1);
    }
}

/// The allotment of one species is at most the allotments of all.
pub proof fn lemma_offspring_part(species: Seq<Species>, at: int, n: int)
    requires
        0 <= at < n <= species.len(),
    ensures
        species[at].expected_offspring <= offspring_count(species, n),
    decreases n,
{
    lemma_counts_not_negative(species, n - 1);
    if at < n - 1 {
        lemma_offspring_part(species, at, n - 1);
    }
}

/// The first best species depends only on the species looked at and the
/// fitness of their first organisms.
pub proof fn lemma_first_best_same(a: Seq<Species>, b: Seq<Species>, skip: int, n: int)
    requires
        0 <= n <= a.len(),
        n <= b.len(),
        forall|k: int| 0 <= k < n ==> (#[trigger] a[k]).organisms@ == b[k].organisms@,
    ensures
        first_best(a, skip, n) == first_best(b, skip, n),
    decreases n,
{
    if n > 0 {
        lemma_first_best_same(a, b, skip, n - 1);
        lemma_first_best_range(a, skip, n - 1);
    }
}

/// The compatibility threshold after tuning. In the first generation it
/// stays; later it falls by three tenths where there are fewer species than
/// the target and rises by as much where there are more, and never lies
/// below three tenths.
pub open spec fn tuned_threshold(
    threshold: u64,
    generation: usize,
    num_species: int,
    target: usize,
) -> u64 {
    if generation == 0 {
        threshold
    } else {
        let moved: int = if num_species < target {
            threshold - THRESHOLD_STEP
        } else if num_species > target {
            lesser(threshold + THRESHOLD_STEP, u64::MAX as int)
        } else {
            threshold as int
        };
        if moved < THRESHOLD_STEP {
            THRESHOLD_STEP
        } else {
            moved as u64
        }
    }
}

/// Taking a species out of a list lowers the count of organisms by the
/// size of the species.
pub proof fn lemma_organism_count_remove(species: Seq<Species>, at: int, n: int)
    requires
        0 <= at < n,
        n == species.len(),
    ensures
        organism_count(species.remove(at), n - 1) == organism_count(species, n)
            - species[at].organisms@.len(),
    decreases n,
{
    let removed = species.remove(at);
    if at == n - 1 {
        lemma_organism_count_same(removed, species, n - 1);
    } else {
        let shorter = species.take(n - 1);
        lemma_organism_count_remove(shorter, at, n - 1);
        lemma_organism_count_same(shorter.remove(at), removed, n - 2);
        lemma_organism_count_same(shorter, species, n - 1);
        assert(removed[n - 2] == species[n - 1]);
    }
}

/// The largest node identity among the first `n` nodes, or zero.
pub open spec fn max_node_id(nodes: Seq<crate::genes::Node>, n: int) -> int
    decreases n,
{
    if n <= 0 {
        0
    } else if nodes[n - 1].id > max_node_id(nodes, n - 1) {
        nodes[n - 1].id as int
    } else {
        max_node_id(nodes, n - 1)
    }
}

/// The largest innovation number among the first `n` links, or zero.
pub open spec fn max_innovation(links: Seq<Link>, n: int) -> int
    decreases n,
{
    if n <= 0 {
        0
    } else if links[n - 1].innovation > max_innovation(links, n - 1) {
        links[n - 1].innovation as int
    } else {
        max_innovation(links, n - 1)
    }
}

/// The organisms in the opposite order.
fn reverse_organisms(organisms: Vec<Organism>) -> (reversed: Vec<Organism>)
    ensures
        reversed@ == organisms@.reverse(),
{
    let mut rest = organisms;
    let mut reversed: Vec<Organism> = Vec::new();
    while rest.len() > 0
        invariant
            rest@.len() <= organisms@.len(),
            reversed@.len() == organisms@.len() - rest@.len(),
            forall|k: int| 0 <= k < rest@.len() ==> #[trigger] rest@[k] == organisms@[k],
            forall|k: int|
                0 <= k < reversed@.len() ==> #[trigger] reversed@[k] == organisms@[organisms@.len()
                    - 1 - k],
        decreases rest@.len(),
    {
        match rest.pop() {
            Some(organism) => {
                reversed.push(organism);
            },
            None => {},
        }
    }
    assert(reversed@ =~= organisms@.reverse());
    reversed
}

/// The genome `child` is a mutation of a genome with the nodes and links of
/// `parent`: see [`crate::mutation::mutated`].
pub open spec fn is_mutation(
    parent: &Genome,
    settings: &crate::mutation::Settings,
    child: &Genome,
) -> bool {
    exists|before: Genome, earlier: State, after: Genome, later: State|
        same_genome(&before, parent) && same_genome(&after, child)
            && #[trigger] crate::mutation::mutated(&before, &earlier, settings, &after, &later)
}

/// The genome `child` is a crossing of the genomes `fitter` and `other`: it
/// has the nodes of `fitter`, and each of its links descends from the link
/// of `fitter` in its place and the links of `other`.
pub open spec fn is_crossing(fitter: &Genome, other: &Genome, child: &Genome) -> bool {
    &&& child.nodes@ == fitter.nodes@
    &&& child.links@.len() == fitter.links@.len()
    &&& forall|i: int|
        0 <= i < fitter.links@.len() ==> crate::mating::descends_from(
            fitter.links@[i],
            other.links@,
            #[trigger] child.links@[i],
        )
}

/// The genome `child` comes from the mating of the organisms `a` and `b`
/// by way of `crossing`: that is a crossing of their genomes with the
/// structure of the fitter, of `a` where they are equally fit; and `child`
/// is a mutation of it, or the crossing itself where the parents are not at
/// the compatibility distance zero.
pub open spec fn mated_through(
    a: Organism,
    b: Organism,
    crossing: Genome,
    settings: &crate::mutation::Settings,
    child: &Genome,
) -> bool {
    &&& if a.fitness >= b.fitness {
        is_crossing(&a.genome, &b.genome, &crossing)
    } else {
        is_crossing(&b.genome, &a.genome, &crossing)
    }
    &&& is_mutation(&crossing, settings, child) || (settings.mutate_after_mating_prob < ONE
        && compatibility_of(default_compat_coefficients(), a.genome.links@, b.genome.links@) != 0
        && same_genome(&crossing, child))
}

/// The genome `child` comes from the mating of the organisms `a` and `b`:
/// see [`mated_through`].
pub open spec fn is_mating(
    a: Organism,
    b: Organism,
    settings: &crate::mutation::Settings,
    child: &Genome,
) -> bool {
    exists|crossing: Genome| #[trigger] mated_through(a, b, crossing, settings, child)
}

/// The genome `child` was bred from the organisms of a species: it is a
/// mutation of the genome of one of them, or comes from the mating of one of
/// them with another of them or with an organism of the `pool`.
pub open spec fn is_bred(
    organisms: Seq<Organism>,
    pool: Seq<Species>,
    settings: &crate::mutation::Settings,
    child: &Genome,
) -> bool {
    ||| settings.mutate_only_prob > 0 && exists|at: int|
        0 <= at < organisms.len() && is_mutation(
            &(#[trigger] organisms[at]).genome,
            settings,
            child,
        )
    ||| settings.mutate_only_prob < ONE && exists|at: int, partner: Organism|
        0 <= at < organisms.len() && (organisms.contains(partner) || (
        settings.interspecies_mating_prob > 0 && holds(pool, partner))) && #[trigger] is_mating(
            organisms[at],
            partner,
            settings,
            child,
        )
}

/// The genome `child` is one that the species gives to an offspring: the
/// genome that stands for it, that genome with weights changed within the
/// power of the settings, or a genome bred from its organisms.
pub open spec fn is_child_of(
    species: Species,
    pool: Seq<Species>,
    settings: &crate::mutation::Settings,
    child: &Genome,
) -> bool {
    ||| same_genome(child, &species.best_genome)
    ||| (child.nodes@ == species.best_genome.nodes@ && weights_evolved(
        species.best_genome.links@,
        child.links@,
        settings.change_link_weights_power,
    ))
    ||| is_bred(species.organisms@, pool, settings, child)
}

/// The genome `child` is one that a species of the pool with an allotment
/// gives to an offspring.
pub open spec fn has_origin(
    pool: Seq<Species>,
    settings: &crate::mutation::Settings,
    child: &Genome,
) -> bool {
    exists|i: int|
        0 <= i < pool.len() && pool[i].expected_offspring > 0 && is_child_of(
            #[trigger] pool[i],
            pool,
            settings,
            child,
        )
}

/// `elite` is the species `whole` pruned to its elite: the first of its
/// organisms, as many as the survival threshold lets live.
pub open spec fn is_elite(whole: Species, survival_threshold: u32, elite: Species) -> bool {
    &&& same_bookkeeping(elite, whole)
    &&& elite.organisms@ == whole.organisms@.take(
        lesser(
            whole.organisms@.len() as int,
            elite_size(whole.organisms@.len() as int, survival_threshold),
        ),
    )
}

/// The organisms of the species `later` were bred from the species
/// `breeders`, which are the species `parents` pruned to their elites.
#[verifier::opaque]
pub open spec fn is_bred_from(
    parents: Seq<Species>,
    survival_threshold: u32,
    settings: &crate::mutation::Settings,
    breeders: Seq<Species>,
    later: Seq<Species>,
) -> bool {
    &&& breeders.len() == parents.len()
    &&& forall|i: int|
        0 <= i < parents.len() ==> is_elite(parents[i], survival_threshold, #[trigger] breeders[i])
    &&& forall|s: int, o: int|
        0 <= s < later.len() && 0 <= o < later[s].organisms@.len() ==> has_origin(
            breeders,
            settings,
            &(#[trigger] later[s].organisms@[o]).genome,
        )
}

/// The species `later` are the next generation of the species `earlier`:
/// see [`elite_lives_on`] and [`is_bred_from`].
pub open spec fn is_next_generation(
    earlier: Seq<Species>,
    dropoff_age: usize,
    survival_threshold: u32,
    stagnant: bool,
    settings: &crate::mutation::Settings,
    parents: Seq<Species>,
    breeders: Seq<Species>,
    later: Seq<Species>,
) -> bool {
    &&& elite_lives_on(earlier, dropoff_age, stagnant, parents, later)
    &&& is_bred_from(parents, survival_threshold, settings, breeders, later)
}

/// The two genomes have the same nodes and links.
pub open spec fn same_genome(a: &Genome, b: &Genome) -> bool {
    a.nodes@ == b.nodes@ && a.links@ == b.links@
}

/// The organism has no fitness yet.
pub open spec fn is_fresh(organism: Organism) -> bool {
    organism.fitness == 0 && organism.adj_fitness == 0
}

/// The organisms of a species as its preparation for an epoch leaves them:
/// each with its fitness floored and shared, sorted by rank.
pub open spec fn prepared_organisms(species: Species, dropoff_age: usize) -> Seq<Organism> {
    stably_sorted(
        species.organisms@.map_values(
            |o: Organism|
                prepared(
                    o,
                    species.organisms@.len() as int,
                    species.time_since_last_improvement > dropoff_age,
                ),
        ),
        species.organisms@.len() as int,
    )
}

/// `after` holds the allotments for the species `before`; `stagnant` tells
/// whether only the two species with the fittest best organisms are to
/// reproduce. See [`Population::allot_offspring`].
#[verifier::opaque]
pub open spec fn is_allotment(before: Seq<Species>, stagnant: bool, after: Seq<Species>) -> bool {
    let count = organism_count(before, before.len() as int);
    let top = first_best(before, -1, before.len() as int);
    let second = first_best(before, top, before.len() as int);
    &&& after.len() == before.len()
    &&& if stagnant {
        &&& forall|i: int|
            0 <= i < before.len() && i != top && i != second ==> (
            #[trigger] after[i]).expected_offspring == 0
        &&& after[top].expected_offspring == count - (if before.len() > 1 {
            count / 2
        } else {
            0
        })
        &&& before.len() > 1 ==> after[second].expected_offspring == count / 2
    } else {
        let average = mean_up(adj_fitness_total(before, before.len() as int), count) as u64;
        forall|i: int|
            0 <= i < before.len() ==> (#[trigger] after[i]).expected_offspring == share_of(
                before,
                average,
                i,
            ) + if i == top {
                count - owed_total(before, average, before.len() as int) / (ONE as int)
            } else {
                0
            }
    }
}

/// An allotment depends only on the organisms of the species.
pub proof fn lemma_allotment_same(
    before: Seq<Species>,
    like: Seq<Species>,
    stagnant: bool,
    after: Seq<Species>,
)
    requires
        is_allotment(before, stagnant, after),
        like.len() == before.len(),
        forall|i: int| 0 <= i < before.len() ==> (#[trigger] like[i]).organisms@ == before[i].organisms@,
    ensures
        is_allotment(like, stagnant, after),
{
    reveal(is_allotment);
    let len = before.len() as int;
    lemma_organism_count_same(before, like, len);
    lemma_adj_fitness_total_same(before, like, len);
    lemma_first_best_same(before, like, -1, len);
    let top = first_best(before, -1, len);
    lemma_first_best_same(before, like, top, len);
    let count = organism_count(before, len);
    let average = mean_up(adj_fitness_total(before, len), count) as u64;
    lemma_owed_total_same(before, like, average, len);
    if !stagnant {
        assert forall|i: int| 0 <= i < like.len() implies (#[trigger] after[i]).expected_offspring
            == share_of(like, average, i) + if i == top {
            count - owed_total(like, average, len) / (ONE as int)
        } else {
            0
        } by {
            lemma_owed_total_same(before, like, average, i);
            lemma_owed_total_same(before, like, average, i + 1);
        }
    }
}

/// The time that a species has gone without improvement once it is
/// prepared for an epoch: none where the first of its prepared organisms is
/// fitter than any before, else one epoch more.
pub open spec fn prepared_clock(species: Species, dropoff_age: usize) -> int {
    if prepared_organisms(species, dropoff_age)[0].fitness > species.highest_fitness {
        0
    } else {
        species.time_since_last_improvement + 1
    }
}

/// `after` is the species `before` prepared for an epoch, as to its clock
/// and the offspring that get the genome that stands for it: one.
#[verifier::opaque]
pub open spec fn is_clocked(before: Species, dropoff_age: usize, after: Species) -> bool {
    &&& after.time_since_last_improvement == prepared_clock(before, dropoff_age)
    &&& after.best_offspring == 1
}

/// The books of the species `parent`, which is the species `earlier` with
/// its allotment: where it is one of the two species that a stagnant
/// population breeds from (`chosen`), its time without improvement starts
/// anew and all its offspring get the genome that stands for it; else its
/// clock is that of `earlier` prepared, and one offspring gets that genome.
pub open spec fn has_books(
    earlier: Species,
    dropoff_age: usize,
    chosen: bool,
    parent: Species,
) -> bool {
    if chosen {
        parent.time_since_last_improvement == 0 && parent.best_offspring
            == parent.expected_offspring
    } else {
        parent.time_since_last_improvement == prepared_clock(earlier, dropoff_age)
            && parent.best_offspring == 1
    }
}

/// Each of the species `parents` has the books that go with its allotment:
/// see [`has_books`].
#[verifier::opaque]
pub open spec fn are_books_kept(
    earlier: Seq<Species>,
    dropoff_age: usize,
    stagnant: bool,
    parents: Seq<Species>,
) -> bool {
    let top = first_best(parents, -1, parents.len() as int);
    let second = first_best(parents, top, parents.len() as int);
    &&& parents.len() == earlier.len()
    &&& forall|i: int|
        0 <= i < parents.len() ==> has_books(
            earlier[i],
            dropoff_age,
            stagnant && (i == top || i == second),
            #[trigger] parents[i],
        )
}

/// The books of the species `parent`, which is the species with the number
/// `i` of `before` with its allotment: where it is one of the two species
/// that a stagnant population breeds from, its time without improvement
/// starts anew and all its offspring get the genome that stands for it;
/// else both are as they were.
pub open spec fn allotted_books(
    before: Seq<Species>,
    stagnant: bool,
    i: int,
    parent: Species,
) -> bool {
    let top = first_best(before, -1, before.len() as int);
    let second = first_best(before, top, before.len() as int);
    if stagnant && (i == top || i == second) {
        parent.time_since_last_improvement == 0 && parent.best_offspring
            == parent.expected_offspring
    } else {
        parent.time_since_last_improvement == before[i].time_since_last_improvement
            && parent.best_offspring == before[i].best_offspring
    }
}

/// `after` is the species `before` prepared for an epoch: a year older, its
/// organisms prepared and sorted, the genome of the first of them standing
/// for it, and the fitness of the first recorded where it is the highest so
/// far.
#[verifier::opaque]
pub open spec fn is_prepared(before: Species, dropoff_age: usize, after: Species) -> bool {
    &&& after.id == before.id
    &&& after.age == before.age + 1
    &&& after.organisms@ == prepared_organisms(before, dropoff_age)
    &&& same_genome(&after.best_genome, &after.organisms@[0].genome)
    &&& after.highest_fitness == greater(
        before.highest_fitness as int,
        after.organisms@[0].fitness as int,
    )
}

/// The greater of two numbers.
pub open spec fn greater(a: int, b: int) -> int {
    if a >= b {
        a
    } else {
        b
    }
}

/// One of the organisms has the genome `genome`.
pub open spec fn among(organisms: Seq<Organism>, genome: &Genome) -> bool {
    exists|k: int|
        0 <= k < organisms.len() && same_genome(&(#[trigger] organisms[k]).genome, genome)
}

/// The genome lies at a compatibility distance below the threshold from the
/// genome that stands for the species.
pub open spec fn fits_species(
    species: Species,
    c: CompatCoefficients,
    threshold: u64,
    genome: &Genome,
) -> bool {
    compatibility_of(c, species.best_genome.links@, genome.links@) < threshold
}

/// The organism `o` of the species `s` is in its place: it fits none of the
/// species before its own, and it fits its own or has founded it.
pub open spec fn placed(
    species: Seq<Species>,
    c: CompatCoefficients,
    threshold: u64,
    s: int,
    o: int,
) -> bool {
    let organism = species[s].organisms@[o];
    &&& forall|t: int|
        0 <= t < s ==> !fits_species(#[trigger] species[t], c, threshold, &organism.genome)
    &&& fits_species(species[s], c, threshold, &organism.genome) || (o == 0 && same_genome(
        &species[s].best_genome,
        &organism.genome,
    ))
}

/// Every organism is in its place: see [`placed`].
#[verifier::opaque]
pub open spec fn settled(species: Seq<Species>, c: CompatCoefficients, threshold: u64) -> bool {
    forall|s: int, o: int|
        0 <= s < species.len() && 0 <= o < species[s].organisms@.len() ==> #[trigger] placed(
            species,
            c,
            threshold,
            s,
            o,
        )
}

/// The identities of the species differ from one another and lie below the
/// counter.
pub open spec fn ids_in_order(species: Seq<Species>, counter: usize) -> bool {
    &&& forall|i: int| 0 <= i < species.len() ==> (#[trigger] species[i]).id < counter
    &&& forall|i: int, j: int|
        0 <= i < j < species.len() ==> (#[trigger] species[i]).id != (#[trigger] species[j]).id
}

/// Some organism of the species has the genome `genome`.
pub open spec fn carries(species: Seq<Species>, genome: &Genome) -> bool {
    exists|s: int, o: int|
        0 <= s < species.len() && 0 <= o < species[s].organisms@.len() && same_genome(
            &(#[trigger] species[s].organisms@[o]).genome,
            genome,
        )
}

/// The organism is one of the species' organisms.
pub open spec fn holds(species: Seq<Species>, organism: Organism) -> bool {
    exists|s: int, o: int|
        0 <= s < species.len() && 0 <= o < species[s].organisms@.len()
            && #[trigger] species[s].organisms@[o] == organism
}

/// The first fit is the first species that the links fit: none before it
/// fits them, and it fits them where it is a species.
pub proof fn lemma_first_fit(
    species: Seq<Species>,
    c: CompatCoefficients,
    threshold: u64,
    links: Seq<Link>,
    start: int,
)
    requires
        0 <= start <= species.len(),
    ensures
        start <= first_fit(species, c, threshold, links, start) <= species.len(),
        forall|t: int|
            start <= t < first_fit(species, c, threshold, links, start) ==> !(compatibility_of(
                c,
                (#[trigger] species[t]).best_genome.links@,
                links,
            ) < threshold),
        first_fit(species, c, threshold, links, start) < species.len() ==> compatibility_of(
            c,
            species[first_fit(species, c, threshold, links, start)].best_genome.links@,
            links,
        ) < threshold,
    decreases species.len() - start,
{
    if start < species.len() && !(compatibility_of(c, species[start].best_genome.links@, links)
        < threshold) {
        lemma_first_fit(species, c, threshold, links, start + 1);
    }
}

/// `after` and the counter beside it are what the insertion of the organism
/// makes of `before` and its counter: the organism has joined the first
/// species that it fits, or founded a species with the next identity.
pub open spec fn is_insertion(
    before: Seq<Species>,
    c: CompatCoefficients,
    threshold: u64,
    counter: usize,
    organism: Organism,
    after: Seq<Species>,
    counter_after: usize,
) -> bool {
    let fit = first_fit(before, c, threshold, organism.genome.links@, 0);
    if fit < before.len() {
        &&& after.len() == before.len()
        &&& counter_after == counter
        &&& after[fit].organisms@ == before[fit].organisms@.push(organism)
        &&& same_bookkeeping(after[fit], before[fit])
        &&& forall|i: int| 0 <= i < before.len() && i != fit ==> #[trigger] after[i] == before[i]
    } else {
        &&& after.len() == before.len() + 1
        &&& counter_after == counter + 1
        &&& after[fit].organisms@ == seq![organism]
        &&& after[fit].id == counter
        &&& same_genome(&after[fit].best_genome, &organism.genome)
        &&& after[fit].expected_offspring == 0
        &&& after[fit].age == 0
        &&& after[fit].highest_fitness == 0
        &&& after[fit].time_since_last_improvement == 0
        &&& after[fit].best_offspring == 0
        &&& forall|i: int| 0 <= i < before.len() ==> #[trigger] after[i] == before[i]
    }
}

/// The state of a re-speciation: `species` is what the insertion of the
/// organisms `done`, one after the other, has made of the emptied species
/// `start`, whose counter was `counter_start`. The species of `start` keep
/// their bookkeeping; the species behind them were founded in turn, each
/// with the next identity; every organism is in its place; and the
/// organisms of the species are those of `done`.
#[verifier::opaque]
pub open spec fn is_settling(
    start: Seq<Species>,
    counter_start: usize,
    done: Seq<Organism>,
    species: Seq<Species>,
    counter: usize,
    c: CompatCoefficients,
    threshold: u64,
) -> bool {
    &&& species.len() >= start.len()
    &&& counter == counter_start + (species.len() - start.len())
    &&& forall|i: int| 0 <= i < start.len() ==> same_bookkeeping(#[trigger] species[i], start[i])
    &&& forall|s: int|
        start.len() <= s < species.len() ==> is_founded(
            #[trigger] species[s],
            (counter_start + (s - start.len())) as usize,
        )
    &&& settled(species, c, threshold)
    &&& forall|s: int, o: int|
        0 <= s < species.len() && 0 <= o < species[s].organisms@.len() ==> done.contains(
            #[trigger] species[s].organisms@[o],
        )
    &&& forall|k: int| 0 <= k < done.len() ==> holds(species, #[trigger] done[k])
}

/// A species that an organism has founded: it has the given identity and no
/// age, and the genome of its first organism stands for it.
pub open spec fn is_founded(species: Species, id: usize) -> bool {
    &&& species.id == id
    &&& species.age == 0
    &&& species.organisms@.len() > 0
    &&& same_genome(&species.best_genome, &species.organisms@[0].genome)
}

/// The insertion of one more organism carries a re-speciation on.
pub proof fn lemma_insertion_settles(
    start: Seq<Species>,
    counter_start: usize,
    done: Seq<Organism>,
    before: Seq<Species>,
    counter: usize,
    c: CompatCoefficients,
    threshold: u64,
    organism: Organism,
    after: Seq<Species>,
    counter_after: usize,
)
    requires
        is_settling(start, counter_start, done, before, counter, c, threshold),
        is_insertion(before, c, threshold, counter, organism, after, counter_after),
        start.len() > 0,
        counter < usize::MAX,
    ensures
        is_settling(start, counter_start, done.push(organism), after, counter_after, c, threshold),
{
    reveal(settled);
    reveal(is_settling);
    let links = organism.genome.links@;
    let fit = first_fit(before, c, threshold, links, 0);
    lemma_first_fit(before, c, threshold, links, 0);
    let all = done.push(organism);
    assert(all[done.len() as int] == organism);
    assert forall|i: int| 0 <= i < start.len() implies same_bookkeeping(
        #[trigger] after[i],
        start[i],
    ) by {
        assert(same_bookkeeping(before[i], start[i]));
        if i != fit {
            assert(after[i] == before[i]);
        }
    }
    assert forall|s: int| start.len() <= s < after.len() implies is_founded(
        #[trigger] after[s],
        (counter_start + (s - start.len())) as usize,
    ) by {
        if s < before.len() {
            assert(is_founded(before[s], (counter_start + (s - start.len())) as usize));
            if s != fit {
                assert(after[s] == before[s]);
            } else {
                assert(after[s].organisms@[0] == before[s].organisms@[0]);
            }
        } else {
            assert(after[s].organisms@[0] == organism);
        }
    }
    assert forall|s: int, o: int|
        0 <= s < after.len() && 0 <= o < after[s].organisms@.len() implies #[trigger] placed(
        after,
        c,
        threshold,
        s,
        o,
    ) by {
        let x = after[s].organisms@[o];
        if s < before.len() && (s != fit || o < before[s].organisms@.len()) {
            if s != fit {
                assert(after[s] == before[s]);
            }
            assert(x == before[s].organisms@[o]);
            assert(placed(before, c, threshold, s, o));
            assert forall|t: int| 0 <= t < s implies !fits_species(
                #[trigger] after[t],
                c,
                threshold,
                &x.genome,
            ) by {
                assert(!fits_species(before[t], c, threshold, &x.genome));
                if t != fit {
                    assert(after[t] == before[t]);
                } else {
                    assert(same_bookkeeping(after[t], before[t]));
                }
            }
        } else {
            assert(x == organism);
            assert forall|t: int| 0 <= t < s implies !fits_species(
                #[trigger] after[t],
                c,
                threshold,
                &x.genome,
            ) by {
                assert(after[t] == before[t]);
            }
        }
    }
    assert forall|s: int, o: int|
        0 <= s < after.len() && 0 <= o < after[s].organisms@.len() implies all.contains(
        #[trigger] after[s].organisms@[o],
    ) by {
        let x = after[s].organisms@[o];
        if s < before.len() && (s != fit || o < before[s].organisms@.len()) {
            if s != fit {
                assert(after[s] == before[s]);
            }
            assert(x == before[s].organisms@[o]);
            assert(done.contains(x));
            let k = choose|k: int| 0 <= k < done.len() && done[k] == x;
            assert(all[k] == x);
        } else {
            assert(x == organism);
        }
    }
    assert forall|k: int| 0 <= k < all.len() implies holds(after, #[trigger] all[k]) by {
        if k < done.len() {
            assert(all[k] == done[k]);
            assert(holds(before, done[k]));
            let (s, o) = choose|s: int, o: int|
                0 <= s < before.len() && 0 <= o < before[s].organisms@.len()
                    && #[trigger] before[s].organisms@[o] == done[k];
            if s != fit {
                assert(after[s] == before[s]);
            }
            assert(after[s].organisms@[o] == done[k]);
        } else {
            if fit < before.len() {
                assert(after[fit].organisms@[before[fit].organisms@.len() as int] == organism);
            } else {
                assert(after[fit].organisms@[0] == organism);
            }
        }
    }
}

/// Where the kept items of a sequence come from: for each item that the
/// filter keeps, its place in `all`. The places rise, and every item of
/// `all` that `keep` holds of has one.
pub proof fn lemma_filter_places(all: Seq<Species>, keep: spec_fn(Species) -> bool) -> (places:
    Seq<int>)
    ensures
        places.len() == all.filter(keep).len(),
        forall|k: int|
            0 <= k < places.len() ==> 0 <= #[trigger] places[k] < all.len() && all[places[k]]
                == all.filter(keep)[k],
        forall|j: int, k: int|
            0 <= j < k < places.len() ==> #[trigger] places[j] < #[trigger] places[k],
        forall|m: int|
            0 <= m < all.len() && keep(#[trigger] all[m]) ==> exists|k: int|
                0 <= k < places.len() && #[trigger] places[k] == m,
    decreases all.len(),
{
    reveal(Seq::filter);
    if all.len() == 0 {
        Seq::<int>::empty()
    } else {
        let front = all.drop_last();
        let places_front = lemma_filter_places(front, keep);
        let places = if keep(all.last()) {
            places_front.push(all.len() - 1)
        } else {
            places_front
        };
        assert forall|k: int| 0 <= k < places.len() implies 0 <= #[trigger] places[k] < all.len()
            && all[places[k]] == all.filter(keep)[k] by {
            if k < places_front.len() {
                assert(places[k] == places_front[k]);
                assert(front[places_front[k]] == all[places_front[k]]);
            }
        }
        assert forall|j: int, k: int| 0 <= j < k < places.len() implies #[trigger] places[j]
            < #[trigger] places[k] by {
            assert(places[j] == places_front[j]);
            if k < places_front.len() {
                assert(places[k] == places_front[k]);
            }
        }
        assert forall|m: int| 0 <= m < all.len() && keep(#[trigger] all[m]) implies exists|k: int|
            0 <= k < places.len() && #[trigger] places[k] == m by {
            if m < front.len() {
                assert(front[m] == all[m]);
                let k = choose|k: int| 0 <= k < places_front.len() && #[trigger] places_front[k] == m;
                assert(places[k] == m);
            } else {
                assert(places[places.len() - 1] == m);
            }
        }
        places
    }
}

/// The species `later` has the bookkeeping of one of the species `earlier`.
pub open spec fn keeps_books(earlier: Seq<Species>, later: Species) -> bool {
    exists|i: int| 0 <= i < earlier.len() && same_bookkeeping(later, #[trigger] earlier[i])
}

/// The species `later` continues the species `earlier` into the next
/// generation: it has its identity, is a year older, the genome of the
/// first of the prepared organisms of `earlier` stands for it, and the
/// fitness of that organism is recorded where it is the highest so far.
pub open spec fn continues(earlier: Species, dropoff_age: usize, later: Species) -> bool {
    &&& later.id == earlier.id
    &&& later.age == earlier.age + 1
    &&& same_genome(&later.best_genome, &prepared_organisms(earlier, dropoff_age)[0].genome)
    &&& later.highest_fitness == greater(
        earlier.highest_fitness as int,
        prepared_organisms(earlier, dropoff_age)[0].fitness as int,
    )
}

/// The species `later` continues one of the species `earlier`.
pub open spec fn continues_one(earlier: Seq<Species>, dropoff_age: usize, later: Species) -> bool {
    exists|i: int| 0 <= i < earlier.len() && continues(#[trigger] earlier[i], dropoff_age, later)
}

/// The species was founded when the counter of species stood at `counter`
/// or later: it has no age, and the genome of its first organism stands for
/// it.
pub open spec fn is_new_species(species: Species, counter: usize) -> bool {
    &&& species.id >= counter
    &&& species.age == 0
    &&& species.organisms@.len() > 0
    &&& same_genome(&species.best_genome, &species.organisms@[0].genome)
}

/// The species `parents` are the species `earlier` prepared for an epoch
/// and allotted their offspring, and the genome of every one of them with an
/// allotment is among the organisms of the species `later`. A species of
/// `later` that is not new has the books of one of the `parents`.
#[verifier::opaque]
pub open spec fn elite_lives_on(
    earlier: Seq<Species>,
    dropoff_age: usize,
    stagnant: bool,
    parents: Seq<Species>,
    later: Seq<Species>,
) -> bool {
    &&& parents.len() == earlier.len()
    &&& forall|i: int|
        0 <= i < earlier.len() ==> is_prepared(earlier[i], dropoff_age, #[trigger] parents[i])
    &&& is_allotment(parents, stagnant, parents)
    &&& are_books_kept(earlier, dropoff_age, stagnant, parents)
    &&& forall|i: int|
        0 <= i < parents.len() && (#[trigger] parents[i]).expected_offspring > 0 ==> carries(
            later,
            &parents[i].best_genome,
        )
    &&& forall|k: int|
        0 <= k < later.len() && (#[trigger] later[k]).age > 0 ==> keeps_books(parents, later[k])
}

/// What a re-speciation leaves once the species without organisms are
/// gone.
pub proof fn lemma_settling_kept(
    start: Seq<Species>,
    counter_start: usize,
    offspring: Seq<Organism>,
    all: Seq<Species>,
    counter: usize,
    c: CompatCoefficients,
    threshold: u64,
    kept: Seq<Species>,
)
    requires
        is_settling(start, counter_start, offspring, all, counter, c, threshold),
        kept == all.filter(|species: Species| species.organisms@.len() > 0),
        forall|k: int| 0 <= k < offspring.len() ==> is_fresh(#[trigger] offspring[k]),
    ensures
        settled(kept, c, threshold),
        forall|s: int, o: int|
            0 <= s < kept.len() && 0 <= o < kept[s].organisms@.len() ==> is_fresh(
                #[trigger] kept[s].organisms@[o],
            ),
        forall|k: int|
            0 <= k < kept.len() ==> keeps_books(start, #[trigger] kept[k]) || is_new_species(
                kept[k],
                counter_start,
            ),
        forall|genome: Genome| #[trigger] among(offspring, &genome) ==> carries(kept, &genome),
        ids_in_order(start, counter_start) ==> ids_in_order(kept, counter),
        forall|s: int, o: int|
            0 <= s < kept.len() && 0 <= o < kept[s].organisms@.len() ==> offspring.contains(
                #[trigger] kept[s].organisms@[o],
            ),
{
    reveal(settled);
    reveal(is_settling);
    let keep = |species: Species| species.organisms@.len() > 0;
    let places = lemma_filter_places(all, keep);
    assert forall|s: int, o: int|
        0 <= s < kept.len() && 0 <= o < kept[s].organisms@.len() implies #[trigger] placed(
        kept,
        c,
        threshold,
        s,
        o,
    ) by {
        let p = places[s];
        assert(kept[s] == all[p]);
        assert(placed(all, c, threshold, p, o));
        assert forall|t: int| 0 <= t < s implies !fits_species(
            #[trigger] kept[t],
            c,
            threshold,
            &kept[s].organisms@[o].genome,
        ) by {
            assert(kept[t] == all[places[t]]);
            assert(places[t] < places[s]);
        }
    }
    assert forall|s: int, o: int|
        0 <= s < kept.len() && 0 <= o < kept[s].organisms@.len() implies is_fresh(
        #[trigger] kept[s].organisms@[o],
    ) && offspring.contains(kept[s].organisms@[o]) by {
        let p = places[s];
        assert(kept[s] == all[p]);
        assert(offspring.contains(all[p].organisms@[o]));
    }
    assert forall|k: int| 0 <= k < kept.len() implies keeps_books(start, #[trigger] kept[k])
        || is_new_species(kept[k], counter_start) by {
        let p = places[k];
        assert(kept[k] == all[p]);
        if p < start.len() {
            assert(same_bookkeeping(all[p], start[p]));
        } else {
            assert(is_founded(all[p], (counter_start + (p - start.len())) as usize));
        }
    }
    assert forall|genome: Genome| #[trigger] among(offspring, &genome) implies carries(
        kept,
        &genome,
    ) by {
        let k = choose|k: int|
            0 <= k < offspring.len() && same_genome(&(#[trigger] offspring[k]).genome, &genome);
        assert(holds(all, offspring[k]));
        let (s, o) = choose|s: int, o: int|
            0 <= s < all.len() && 0 <= o < all[s].organisms@.len()
                && #[trigger] all[s].organisms@[o] == offspring[k];
        assert(keep(all[s]));
        let at = choose|at: int| 0 <= at < places.len() && #[trigger] places[at] == s;
        assert(kept[at] == all[s]);
        assert(same_genome(&kept[at].organisms@[o].genome, &genome));
    }
    if ids_in_order(start, counter_start) {
        assert forall|i: int| 0 <= i < kept.len() implies (#[trigger] kept[i]).id < counter by {
            let p = places[i];
            assert(kept[i] == all[p]);
            if p < start.len() {
                assert(same_bookkeeping(all[p], start[p]));
            } else {
                assert(is_founded(all[p], (counter_start + (p - start.len())) as usize));
            }
        }
        assert forall|i: int, j: int| 0 <= i < j < kept.len() implies (#[trigger] kept[i]).id != (
        #[trigger] kept[j]).id by {
            let p = places[i];
            let q = places[j];
            assert(p < q);
            assert(kept[i] == all[p]);
            assert(kept[j] == all[q]);
            if p < start.len() {
                assert(same_bookkeeping(all[p], start[p]));
            } else {
                assert(is_founded(all[p], (counter_start + (p - start.len())) as usize));
            }
            if q < start.len() {
                assert(same_bookkeeping(all[q], start[q]));
            } else {
                assert(is_founded(all[q], (counter_start + (q - start.len())) as usize));
            }
        }
    }
}

/// The books of the species with their allotments, from what preparation
/// and allotment do to them.
pub proof fn lemma_books_kept(
    earlier: Seq<Species>,
    dropoff_age: usize,
    stagnant: bool,
    prepared_species: Seq<Species>,
    allotted: Seq<Species>,
)
    requires
        prepared_species.len() == earlier.len(),
        allotted.len() == earlier.len(),
        forall|i: int|
            0 <= i < earlier.len() ==> is_clocked(
                earlier[i],
                dropoff_age,
                #[trigger] prepared_species[i],
            ),
        forall|i: int|
            0 <= i < earlier.len() ==> allotted_books(
                prepared_species,
                stagnant,
                i,
                #[trigger] allotted[i],
            ),
        forall|i: int|
            0 <= i < earlier.len() ==> (#[trigger] allotted[i]).organisms@
                == prepared_species[i].organisms@,
    ensures
        are_books_kept(earlier, dropoff_age, stagnant, allotted),
{
    reveal(are_books_kept);
    reveal(is_clocked);
    let len = earlier.len() as int;
    lemma_first_best_same(prepared_species, allotted, -1, len);
    let top = first_best(prepared_species, -1, len);
    lemma_first_best_same(prepared_species, allotted, top, len);
    let second = first_best(prepared_species, top, len);
    assert forall|i: int| 0 <= i < allotted.len() implies has_books(
        earlier[i],
        dropoff_age,
        stagnant && (i == top || i == second),
        #[trigger] allotted[i],
    ) by {
        assert(allotted_books(prepared_species, stagnant, i, allotted[i]));
        assert(is_clocked(earlier[i], dropoff_age, prepared_species[i]));
    }
}

/// What the breeding of a generation has made of the species `earlier`:
/// `prepared_species` are those prepared for the epoch, `allotted` those
/// with their allotments, `breeders` those pruned to their elites, and
/// `offspring` the organisms that the breeders gave: none with a fitness
/// yet, each from a species with an allotment, and among them the genome
/// that stands for each such species.
#[verifier::opaque]
pub open spec fn is_breeding(
    earlier: Seq<Species>,
    dropoff_age: usize,
    survival_threshold: u32,
    stagnant: bool,
    settings: &crate::mutation::Settings,
    prepared_species: Seq<Species>,
    allotted: Seq<Species>,
    breeders: Seq<Species>,
    offspring: Seq<Organism>,
) -> bool {
    &&& prepared_species.len() == earlier.len()
    &&& allotted.len() == earlier.len()
    &&& breeders.len() == earlier.len()
    &&& forall|i: int|
        0 <= i < earlier.len() ==> is_prepared(
            earlier[i],
            dropoff_age,
            #[trigger] prepared_species[i],
        )
    &&& is_allotment(prepared_species, stagnant, allotted)
    &&& forall|i: int|
        0 <= i < earlier.len() ==> (#[trigger] allotted[i]).organisms@
            == prepared_species[i].organisms@ && allotted[i].id == prepared_species[i].id
            && allotted[i].age == prepared_species[i].age && allotted[i].best_genome
            == prepared_species[i].best_genome && allotted[i].highest_fitness
            == prepared_species[i].highest_fitness
    &&& forall|i: int|
        0 <= i < earlier.len() ==> is_elite(allotted[i], survival_threshold, #[trigger] breeders[i])
    &&& forall|k: int| 0 <= k < offspring.len() ==> is_fresh(#[trigger] offspring[k])
    &&& forall|i: int|
        0 <= i < earlier.len() && (#[trigger] breeders[i]).expected_offspring > 0 ==> among(
            offspring,
            &breeders[i].best_genome,
        )
    &&& forall|k: int|
        0 <= k < offspring.len() ==> has_origin(
            breeders,
            settings,
            &(#[trigger] offspring[k]).genome,
        )
    &&& are_books_kept(earlier, dropoff_age, stagnant, allotted)
}

/// What an epoch leaves, from what its steps do: the species `earlier` have
/// bred (see [`is_breeding`]); `cleared` are the breeders emptied, `all` the
/// species that the offspring were put into, and `kept` those of them that
/// have organisms.
pub proof fn lemma_generation(
    earlier: Seq<Species>,
    counter_earlier: usize,
    dropoff_age: usize,
    stagnant: bool,
    prepared_species: Seq<Species>,
    allotted: Seq<Species>,
    parents: Seq<Species>,
    cleared: Seq<Species>,
    offspring: Seq<Organism>,
    all: Seq<Species>,
    counter: usize,
    c: CompatCoefficients,
    threshold: u64,
    kept: Seq<Species>,
    survival_threshold: u32,
    settings: &crate::mutation::Settings,
)
    requires
        is_breeding(
            earlier,
            dropoff_age,
            survival_threshold,
            stagnant,
            settings,
            prepared_species,
            allotted,
            parents,
            offspring,
        ),
        cleared.len() == earlier.len(),
        forall|i: int| 0 <= i < earlier.len() ==> same_bookkeeping(#[trigger] cleared[i], parents[i]),
        is_settling(cleared, counter_earlier, offspring, all, counter, c, threshold),
        kept == all.filter(|species: Species| species.organisms@.len() > 0),
    ensures
        forall|s: int, o: int|
            0 <= s < kept.len() && 0 <= o < kept[s].organisms@.len() ==> is_fresh(
                #[trigger] kept[s].organisms@[o],
            ),
        forall|k: int|
            0 <= k < kept.len() ==> continues_one(earlier, dropoff_age, #[trigger] kept[k])
                || is_new_species(kept[k], counter_earlier),
        is_next_generation(
            earlier,
            dropoff_age,
            survival_threshold,
            stagnant,
            settings,
            allotted,
            parents,
            kept,
        ),
        settled(kept, c, threshold),
        ids_in_order(earlier, counter_earlier) ==> ids_in_order(kept, counter),
{
    reveal(is_breeding);
    reveal(is_bred_from);
    reveal(elite_lives_on);
    reveal(is_prepared);
    lemma_settling_kept(cleared, counter_earlier, offspring, all, counter, c, threshold, kept);
    lemma_allotment_same(prepared_species, allotted, stagnant, allotted);
    assert forall|i: int| 0 <= i < allotted.len() implies is_prepared(
        earlier[i],
        dropoff_age,
        #[trigger] allotted[i],
    ) by {
        assert(is_prepared(earlier[i], dropoff_age, prepared_species[i]));
    }
    assert forall|i: int|
        0 <= i < allotted.len() && (#[trigger] allotted[i]).expected_offspring > 0 implies carries(
        kept,
        &allotted[i].best_genome,
    ) by {
        assert(same_bookkeeping(parents[i], allotted[i]));
        assert(among(offspring, &parents[i].best_genome));
    }
    assert forall|k: int| 0 <= k < kept.len() implies continues_one(
        earlier,
        dropoff_age,
        #[trigger] kept[k],
    ) || is_new_species(kept[k], counter_earlier) by {
        let later = kept[k];
        if keeps_books(cleared, later) {
            let i = choose|i: int|
                0 <= i < cleared.len() && same_bookkeeping(later, #[trigger] cleared[i]);
            assert(same_bookkeeping(cleared[i], parents[i]));
            assert(same_bookkeeping(parents[i], allotted[i]));
            assert(is_prepared(earlier[i], dropoff_age, allotted[i]));
            assert(continues(earlier[i], dropoff_age, later));
        }
    }
    assert forall|k: int| 0 <= k < kept.len() && (#[trigger] kept[k]).age > 0 implies keeps_books(
        allotted,
        kept[k],
    ) by {
        let later = kept[k];
        assert(keeps_books(cleared, later) || is_new_species(later, counter_earlier));
        let i = choose|i: int|
            0 <= i < cleared.len() && same_bookkeeping(later, #[trigger] cleared[i]);
        assert(same_bookkeeping(cleared[i], parents[i]));
        assert(same_bookkeeping(parents[i], allotted[i]));
        assert(same_bookkeeping(later, allotted[i]));
    }
    if ids_in_order(earlier, counter_earlier) {
        assert forall|i: int| 0 <= i < cleared.len() implies (#[trigger] cleared[i]).id
            == earlier[i].id by {
            assert(same_bookkeeping(cleared[i], parents[i]));
            assert(same_bookkeeping(parents[i], allotted[i]));
            assert(is_prepared(earlier[i], dropoff_age, allotted[i]));
        }
        assert(ids_in_order(cleared, counter_earlier));
    }
}

impl Population {
    /// The population is sound: it has species, each species has organisms
    /// and is sound, the counters cover every genome, and the number of
    /// organisms fits a `usize`.
    pub open spec fn wf(&self) -> bool {
        &&& self.species@.len() > 0
        &&& forall|i: int|
            0 <= i < self.species@.len() ==> (#[trigger] self.species@[i]).organisms@.len() > 0
                && self.species@[i].wf() && self.species@[i].is_covered(
                self.node_counter,
                self.innovation_counter,
            )
        &&& organism_count(self.species@, self.species@.len() as int) <= usize::MAX
    }

    /// The number of organisms.
    pub fn num_organisms(&self) -> (n: usize)
        requires
            organism_count(self.species@, self.species@.len() as int) <= usize::MAX,
        ensures
            n == organism_count(self.species@, self.species@.len() as int),
    {
        let mut n: usize = 0;
        let mut i: usize = 0;
        while i < self.species.len()
            invariant
                i <= self.species@.len(),
                n == organism_count(self.species@, i as int),
                organism_count(self.species@, self.species@.len() as int) <= usize::MAX,
            decreases self.species@.len() - i,
        {
            proof {
                lemma_counts_grow(self.species@, i + 1, self.species@.len() as int);
            }
            n += self.species[i].organisms.len();
            i += 1;
        }
        n
    }

    /// The mean adjusted fitness of all organisms, rounded up to the next
    /// millionth.
    pub fn average_adj_fitness(&self) -> (average: u64)
        requires
            0 < organism_count(self.species@, self.species@.len() as int) <= usize::MAX,
        ensures
            average == mean_up(
                adj_fitness_total(self.species@, self.species@.len() as int),
                organism_count(self.species@, self.species@.len() as int),
            ),
    {
        let count = self.num_organisms();
        let mut total: u128 = 0;
        let mut i: usize = 0;
        while i < self.species.len()
            invariant
                i <= self.species@.len(),
                total == adj_fitness_total(self.species@, i as int),
                count == organism_count(self.species@, self.species@.len() as int),
            decreases self.species@.len() - i,
        {
            proof {
                lemma_counts_grow(self.species@, i + 1, self.species@.len() as int);
                lemma_counts_not_negative(self.species@, i + 1);
                lemma_counts_not_negative(self.species@, self.species@.len() as int);
                let c = organism_count(self.species@, i + 1);
                assert(c * u64::MAX <= usize::MAX * u64::MAX) by (nonlinear_arith)
                    requires
                        0 <= c <= usize::MAX,
                ;
            }
            let sum = self.species[i].total_adj_fitness();
            total += sum;
            i += 1;
        }
        proof {
            lemma_counts_not_negative(self.species@, self.species@.len() as int);
            assert(count * u64::MAX <= 0xffff_ffff_ffff_ffff * 0xffff_ffff_ffff_ffff)
                by (nonlinear_arith)
                requires
                    0 <= count <= 0xffff_ffff_ffff_ffff,
                    u64::MAX == 0xffff_ffff_ffff_ffff,
            ;
            assert((total + count - 1) / (count as int) <= u64::MAX) by (nonlinear_arith)
                requires
                    0 <= total <= count * u64::MAX,
                    count > 0,
            ;
        }
        ((total + (count as u128 - 1)) / (count as u128)) as u64
    }

    /// The first of the organisms with the highest fitness, unless no
    /// organism has a fitness above zero.
    pub fn best_organism(&self) -> (best: Option<&Organism>)
        ensures
            match best {
                Some(found) => found.fitness > 0 && exists|s: int, o: int|
                    0 <= s < self.species@.len() && 0 <= o < self.species@[s].organisms@.len()
                        && *found == #[trigger] self.species@[s].organisms@[o] && (forall|
                        t: int,
                        p: int,
                    |
                        0 <= t < self.species@.len() && 0 <= p < self.species@[t].organisms@.len()
                            ==> (#[trigger] self.species@[t].organisms@[p]).fitness
                            <= found.fitness && ((t < s || (t == s && p < o))
                            ==> self.species@[t].organisms@[p].fitness < found.fitness)),
                None => forall|t: int, p: int|
                    0 <= t < self.species@.len() && 0 <= p < self.species@[t].organisms@.len()
                        ==> (#[trigger] self.species@[t].organisms@[p]).fitness == 0,
            },
    {
        let mut best: Option<&Organism> = None;
        let mut best_fitness: u64 = 0;
        let ghost mut at: (int, int) = (0, 0);
        let mut s: usize = 0;
        while s < self.species.len()
            invariant
                s <= self.species@.len(),
                best is None ==> best_fitness == 0,
                forall|t: int, p: int|
                    0 <= t < s && 0 <= p < self.species@[t].organisms@.len() ==> (
                    #[trigger] self.species@[t].organisms@[p]).fitness <= best_fitness,
                best matches Some(found) ==> found.fitness == best_fitness && best_fitness > 0
                    && 0 <= at.0 < s && 0 <= at.1 < self.species@[at.0].organisms@.len() && *found
                    == self.species@[at.0].organisms@[at.1] && (forall|t: int, p: int|
                    0 <= t < self.species@.len() && 0 <= p < self.species@[t].organisms@.len() && (t
                        < at.0 || (t == at.0 && p < at.1)) ==> (
                    #[trigger] self.species@[t].organisms@[p]).fitness < found.fitness),
            decreases self.species@.len() - s,
        {
            let species = &self.species[s];
            let mut o: usize = 0;
            while o < species.organisms.len()
                invariant
                    s < self.species@.len(),
                    *species == self.species@[s as int],
                    o <= species.organisms@.len(),
                    best is None ==> best_fitness == 0,
                    forall|t: int, p: int|
                        0 <= t < s && 0 <= p < self.species@[t].organisms@.len() ==> (
                        #[trigger] self.species@[t].organisms@[p]).fitness <= best_fitness,
                    forall|p: int|
                        0 <= p < o ==> (#[trigger] self.species@[s as int].organisms@[p]).fitness
                            <= best_fitness,
                    best matches Some(found) ==> found.fitness == best_fitness && best_fitness > 0
                        && 0 <= at.0 <= s && 0 <= at.1 < self.species@[at.0].organisms@.len() && (
                    at.0 == s ==> at.1 < o) && *found == self.species@[at.0].organisms@[at.1] && (
                    forall|t: int, p: int|
                        0 <= t < self.species@.len() && 0 <= p < self.species@[t].organisms@.len()
                            && (t < at.0 || (t == at.0 && p < at.1)) ==> (
                        #[trigger] self.species@[t].organisms@[p]).fitness < found.fitness),
                decreases species.organisms@.len() - o,
            {
                let organism = &species.organisms[o];
                if organism.fitness > best_fitness {
                    best_fitness = organism.fitness;
                    best = Some(organism);
                    proof {
                        at = (s as int, o as int);
                    }
                }
                o += 1;
            }
            s += 1;
        }
        best
    }

    /// Puts the organism into the first species whose standing genome lies
    /// at a compatibility distance below the threshold from the organism's
    /// genome. Where there is none, the organism founds a new species, which
    /// gets the next identity.
    pub fn insert_organism(&mut self, organism: Organism)
        requires
            old(self).species@.len() > 0,
            forall|i: int|
                0 <= i < old(self).species@.len() ==> (
                #[trigger] old(self).species@[i]).best_genome.wf(),
            organism.genome.wf(),
            old(self).species_counter < usize::MAX,
        ensures
            is_insertion(
                old(self).species@,
                old(self).compat_coefficients,
                old(self).settings.compat_threshold,
                old(self).species_counter,
                organism,
                final(self).species@,
                final(self).species_counter,
            ),
            organism_count(final(self).species@, final(self).species@.len() as int)
                == organism_count(old(self).species@, old(self).species@.len() as int) + 1,
            final(self).settings == old(self).settings,
            final(self).mutation_settings == old(self).mutation_settings,
            final(self).compat_coefficients == old(self).compat_coefficients,
            final(self).node_counter == old(self).node_counter,
            final(self).innovation_counter == old(self).innovation_counter,
            final(self).generation == old(self).generation,
            final(self).highest_fitness == old(self).highest_fitness,
            final(self).time_since_last_improvement == old(self).time_since_last_improvement,
    {
        let ghost before = self.species@;
        let ghost links = organism.genome.links@;
        let mut i: usize = 0;
        while i < self.species.len()
            invariant
                i <= self.species@.len(),
                *self == *old(self),
                before == self.species@,
                links == organism.genome.links@,
                organism.genome.wf(),
                forall|k: int|
                    0 <= k < self.species@.len() ==> (#[trigger] self.species@[k]).best_genome.wf(),
                first_fit(
                    before,
                    self.compat_coefficients,
                    self.settings.compat_threshold,
                    links,
                    0,
                ) == first_fit(
                    before,
                    self.compat_coefficients,
                    self.settings.compat_threshold,
                    links,
                    i as int,
                ),
            decreases self.species@.len() - i,
        {
            assert(self.species@[i as int].best_genome.wf());
            let distance = compatibility(
                &self.compat_coefficients,
                &self.species[i].best_genome,
                &organism.genome,
            );
            if distance < self.settings.compat_threshold as u128 {
                self.species[i].organisms.push(organism);
                proof {
                    lemma_organism_count_differs(
                        before,
                        self.species@,
                        i as int,
                        before.len() as int,
                    );
                }
                return ;
            }
            i += 1;
        }
        let species = Species::new(self.species_counter, vec![organism]);
        self.species.push(species);
        self.species_counter += 1;
        proof {
            lemma_organism_count_same(before, self.species@, before.len() as int);
            assert(self.species@[before.len() as int] == species);
            assert(species.organisms@ =~= seq![organism]);
        }
    }

    /// Among the species, the one at `skip` left aside, the index of the
    /// first whose best organism has the highest fitness.
    fn best_species(&self, skip: Option<usize>) -> (best: Option<usize>)
        requires
            forall|i: int|
                0 <= i < self.species@.len() ==> (#[trigger] self.species@[i]).organisms@.len() > 0,
        ensures
            match best {
                Some(index) => index == first_best(
                    self.species@,
                    match skip {
                        Some(left) => left as int,
                        None => -1,
                    },
                    self.species@.len() as int,
                ),
                None => first_best(
                    self.species@,
                    match skip {
                        Some(left) => left as int,
                        None => -1,
                    },
                    self.species@.len() as int,
                ) == -1,
            },
    {
        let ghost left = match skip {
            Some(left) => left as int,
            None => -1,
        };
        let mut best: Option<usize> = None;
        let mut i: usize = 0;
        while i < self.species.len()
            invariant
                i <= self.species@.len(),
                left == match skip {
                    Some(left) => left as int,
                    None => -1,
                },
                forall|k: int|
                    0 <= k < self.species@.len() ==> (#[trigger] self.species@[k]).organisms@.len()
                        > 0,
                match best {
                    Some(index) => index == first_best(self.species@, left, i as int),
                    None => first_best(self.species@, left, i as int) == -1,
                },
            decreases self.species@.len() - i,
        {
            proof {
                lemma_first_best_range(self.species@, left, i as int);
            }
            let skipped = match skip {
                Some(left) => left == i,
                None => false,
            };
            if !skipped {
                assert(self.species@[i as int].organisms@.len() > 0);
                let better = match best {
                    Some(index) => self.species[i].organisms[0].fitness
                        > self.species[index].organisms[0].fitness,
                    None => true,
                };
                if better {
                    best = Some(i);
                }
            }
            i += 1;
        }
        best
    }

    /// Allots offspring to every species; together they get as many as
    /// there are organisms.
    ///
    /// Where the population has gone without improvement for `dropoff_age`
    /// epochs or more, that time starts anew and only the two species with
    /// the fittest best organisms reproduce: the first gets the upper half
    /// of the offspring and the second the lower half, each as copies of its
    /// standing genome, and both start their time without improvement anew.
    /// A single species gets all.
    ///
    /// Otherwise each species gets its share by adjusted fitness at the
    /// population's average, and the offspring that the shares leave over
    /// go to the species with the fittest best organism.
    pub fn allot_offspring(&mut self)
        requires
            old(self).species@.len() > 0,
            forall|i: int|
                0 <= i < old(self).species@.len() ==> (
                #[trigger] old(self).species@[i]).organisms@.len() > 0 && adj_fitness_sum(
                    old(self).species@[i].organisms@,
                    old(self).species@[i].organisms@.len() as int,
                ) <= u64::MAX,
            organism_count(old(self).species@, old(self).species@.len() as int) <= usize::MAX,
        ensures
            final(self).species@.len() == old(self).species@.len(),
            offspring_count(final(self).species@, final(self).species@.len() as int)
                == organism_count(old(self).species@, old(self).species@.len() as int),
            is_allotment(
                old(self).species@,
                old(self).time_since_last_improvement >= old(self).settings.dropoff_age,
                final(self).species@,
            ),
            forall|i: int|
                0 <= i < old(self).species@.len() ==> (#[trigger] final(self).species@[i]).organisms@
                    == old(self).species@[i].organisms@ && final(self).species@[i].id == old(self).species@[i].id && final(self).species@[i].age == old(self).species@[i].age
                    && final(self).species@[i].highest_fitness == old(self).species@[i].highest_fitness && final(self).species@[i].best_genome == old(self).species@[i].best_genome,
            ({
                let species = old(self).species@;
                let count = organism_count(species, species.len() as int);
                let top = first_best(species, -1, species.len() as int);
                let second = first_best(species, top, species.len() as int);
                if old(self).time_since_last_improvement >= old(self).settings.dropoff_age {
                    &&& final(self).time_since_last_improvement == 0
                    &&& forall|i: int|
                        0 <= i < species.len() && i != top && i != second ==> (
                        #[trigger] final(self).species@[i]).expected_offspring == 0
                            && same_but_allotment(final(self).species@[i], species[i])
                    &&& final(self).species@[top].expected_offspring == count - (if species.len()
                        > 1 {
                        count / 2
                    } else {
                        0
                    })
                    &&& final(self).species@[top].best_offspring == final(self).species@[top].expected_offspring
                    &&& final(self).species@[top].time_since_last_improvement == 0
                    &&& species.len() > 1 ==> final(self).species@[second].expected_offspring
                        == count / 2 && final(self).species@[second].best_offspring == count / 2
                        && final(self).species@[second].time_since_last_improvement == 0
                } else {
                    let average = mean_up(
                        adj_fitness_total(species, species.len() as int),
                        count,
                    ) as u64;
                    &&& final(self).time_since_last_improvement == old(self).time_since_last_improvement
                    &&& forall|i: int|
                        0 <= i < species.len() ==> same_but_allotment(
                            #[trigger] final(self).species@[i],
                            species[i],
                        ) && final(self).species@[i].expected_offspring == share_of(
                            species,
                            average,
                            i,
                        ) + if i == top {
                            count - owed_total(species, average, species.len() as int) / (
                            ONE as int)
                        } else {
                            0
                        }
                }
            }),
            final(self).settings == old(self).settings,
            final(self).mutation_settings == old(self).mutation_settings,
            final(self).compat_coefficients == old(self).compat_coefficients,
            final(self).species_counter == old(self).species_counter,
            final(self).node_counter == old(self).node_counter,
            final(self).innovation_counter == old(self).innovation_counter,
            final(self).generation == old(self).generation,
            final(self).highest_fitness == old(self).highest_fitness,
    {
        proof {
            reveal(is_allotment);
        }
        let ghost species0 = self.species@;
        let ghost len = species0.len() as int;
        let total_population = self.num_organisms();
        let num_species = self.species.len();
        proof {
            lemma_first_best_range(species0, -1, len);
            lemma_first_best_range(species0, first_best(species0, -1, len), len);
            lemma_counts_not_negative(species0, len);
            assert(total_population > 0) by {
                lemma_counts_grow(species0, 1, len);
                assert(organism_count(species0, 0) == 0);
                assert(species0[0].organisms@.len() > 0);
            }
            if len > 1 {
                lemma_counts_grow(species0, 2, len);
                assert(organism_count(species0, 1) == organism_count(species0, 0)
                    + species0[0].organisms@.len());
                assert(species0[1].organisms@.len() > 0);
            }
        }
        if self.time_since_last_improvement >= self.settings.dropoff_age {
            self.time_since_last_improvement = 0;
            let lower_half = total_population / 2;
            let upper_half = total_population - lower_half;
            let best_index = match self.best_species(None) {
                Some(index) => index,
                None => 0,
            };
            let next_index = self.best_species(Some(best_index));
            let mut i: usize = 0;
            while i < self.species.len()
                invariant
                    i <= self.species@.len(),
                    self.species@.len() == len,
                    len == species0.len(),
                    self.settings == old(self).settings,
                    self.mutation_settings == old(self).mutation_settings,
                    self.compat_coefficients == old(self).compat_coefficients,
                    self.species_counter == old(self).species_counter,
                    self.node_counter == old(self).node_counter,
                    self.innovation_counter == old(self).innovation_counter,
                    self.generation == old(self).generation,
                    self.highest_fitness == old(self).highest_fitness,
                    self.time_since_last_improvement == 0,
                    forall|k: int|
                        0 <= k < len ==> same_but_allotment(#[trigger] self.species@[k], species0[k]),
                    forall|k: int|
                        0 <= k < i ==> (#[trigger] self.species@[k]).expected_offspring == 0,
                    offspring_count(self.species@, i as int) == 0,
                decreases self.species@.len() - i,
            {
                let ghost before = self.species@;
                self.species[i].expected_offspring = 0;
                proof {
                    lemma_offspring_count_same(before, self.species@, i as int);
                }
                i += 1;
            }
            let ghost cleared = self.species@;
            if num_species > 1 {
                let next = match next_index {
                    Some(index) => index,
                    None => 0,
                };
                self.species[best_index].expected_offspring = upper_half;
                self.species[best_index].best_offspring = upper_half;
                self.species[best_index].time_since_last_improvement = 0;
                let ghost middle = self.species@;
                self.species[next].expected_offspring = lower_half;
                self.species[next].best_offspring = lower_half;
                self.species[next].time_since_last_improvement = 0;
                proof {
                    lemma_offspring_count_differs(cleared, middle, best_index as int, len);
                    lemma_offspring_count_differs(middle, self.species@, next as int, len);
                }
            } else {
                self.species[best_index].expected_offspring = total_population;
                self.species[best_index].best_offspring = total_population;
                self.species[best_index].time_since_last_improvement = 0;
                proof {
                    lemma_offspring_count_differs(cleared, self.species@, best_index as int, len);
                }
            }
            return ;
        }
        let average = self.average_adj_fitness();
        let mut skim: u64 = 0;
        let mut expected: usize = 0;
        let mut i: usize = 0;
        proof {
            assert(total_population * u64::MAX <= u128::MAX) by (nonlinear_arith)
                requires
                    0 <= total_population <= 0xffff_ffff_ffff_ffff,
                    u64::MAX == 0xffff_ffff_ffff_ffff,
                    u128::MAX == 0xffff_ffff_ffff_ffff_ffff_ffff_ffff_ffff,
            ;
        }
        while i < self.species.len()
            invariant
                i <= self.species@.len(),
                self.species@.len() == len,
                len == species0.len(),
                total_population == organism_count(species0, len),
                total_population > 0,
                total_population * u64::MAX <= u128::MAX,
                average == mean_up(adj_fitness_total(species0, len), total_population as int),
                self.settings == old(self).settings,
                self.mutation_settings == old(self).mutation_settings,
                self.compat_coefficients == old(self).compat_coefficients,
                self.species_counter == old(self).species_counter,
                self.node_counter == old(self).node_counter,
                self.innovation_counter == old(self).innovation_counter,
                self.generation == old(self).generation,
                self.highest_fitness == old(self).highest_fitness,
                self.time_since_last_improvement == old(self).time_since_last_improvement,
                forall|k: int|
                    0 <= k < len ==> adj_fitness_sum(
                        (#[trigger] species0[k]).organisms@,
                        species0[k].organisms@.len() as int,
                    ) <= u64::MAX,
                forall|k: int|
                    0 <= k < len ==> same_but_allotment(#[trigger] self.species@[k], species0[k]),
                forall|k: int|
                    0 <= k < i ==> (#[trigger] self.species@[k]).expected_offspring == share_of(
                        species0,
                        average,
                        k,
                    ),
                skim == owed_total(species0, average, i as int) % (ONE as int),
                expected == owed_total(species0, average, i as int) / (ONE as int),
                expected == offspring_count(self.species@, i as int),
            decreases self.species@.len() - i,
        {
            let ghost before = self.species@;
            proof {
                lemma_owed_total_bounded(species0, average, i as int);
                lemma_owed_total_bounded(species0, average, i + 1);
                lemma_owed_within_population(species0, i + 1);
                assert(same_but_allotment(before[i as int], species0[i as int]));
            }
            self.species[i].allot_offspring(average, &mut skim);
            proof {
                lemma_offspring_count_same(before, self.species@, i as int);
                let owed_before = owed_total(species0, average, i as int);
                let owed_after = owed_total(species0, average, i + 1);
                assert(owed_after / 1_000_000 <= total_population) by {
                    assert(owed_after <= total_population * 1_000_000);
                }
            }
            expected += self.species[i].expected_offspring;
            i += 1;
        }
        let best = match self.best_species(None) {
            Some(index) => index,
            None => 0,
        };
        proof {
            lemma_owed_within_population(species0, len);
            lemma_first_best_range(self.species@, -1, len);
            lemma_first_best_same(self.species@, species0, -1, len);
            lemma_offspring_part(self.species@, best as int, len);
        }
        let ghost before = self.species@;
        let bonus = total_population - expected;
        self.species[best].expected_offspring += bonus;
        proof {
            lemma_offspring_count_differs(before, self.species@, best as int, len);
        }
    }

    /// Every species is sound and the counters cover all its genomes.
    pub open spec fn sound_species(&self) -> bool {
        forall|i: int|
            0 <= i < self.species@.len() ==> (#[trigger] self.species@[i]).wf()
                && self.species@[i].is_covered(self.node_counter, self.innovation_counter)
    }

    /// The counters and clocks can take one more epoch: each of the
    /// population's organisms may be replaced by one that needs a new node
    /// identity, two new innovation numbers and a new species.
    pub open spec fn has_room(&self) -> bool {
        let count = organism_count(self.species@, self.species@.len() as int);
        &&& self.generation < usize::MAX
        &&& self.time_since_last_improvement < usize::MAX
        &&& self.node_counter + count <= usize::MAX
        &&& self.innovation_counter + 2 * count <= u64::MAX
        &&& self.species_counter + count <= usize::MAX
        &&& forall|i: int|
            0 <= i < self.species@.len() ==> (#[trigger] self.species@[i]).age < usize::MAX
                && self.species@[i].time_since_last_improvement < usize::MAX
    }

    /// Whether the counters and clocks can take one more epoch.
    pub fn room_left(&self) -> (ok: bool)
        requires
            organism_count(self.species@, self.species@.len() as int) <= usize::MAX,
        ensures
            ok == self.has_room(),
    {
        let count = self.num_organisms();
        if self.generation == usize::MAX || self.time_since_last_improvement == usize::MAX {
            return false;
        }
        if count > usize::MAX - self.node_counter || count > usize::MAX - self.species_counter {
            return false;
        }
        if 2 * (count as u128) + self.innovation_counter as u128 > u64::MAX as u128 {
            return false;
        }
        let mut i: usize = 0;
        while i < self.species.len()
            invariant
                i <= self.species@.len(),
                forall|k: int|
                    0 <= k < i ==> (#[trigger] self.species@[k]).age < usize::MAX
                        && self.species@[k].time_since_last_improvement < usize::MAX,
            decreases self.species@.len() - i,
        {
            if self.species[i].age == usize::MAX || self.species[i].time_since_last_improvement
                == usize::MAX {
                return false;
            }
            i += 1;
        }
        true
    }

    /// The two populations have the same tunables.
    pub open spec fn same_tunables(&self, other: &Population) -> bool {
        &&& self.settings == other.settings
        &&& self.mutation_settings == other.mutation_settings
        &&& self.compat_coefficients == other.compat_coefficients
    }

    /// The two populations have the same counters.
    pub open spec fn same_counters(&self, other: &Population) -> bool {
        &&& self.species_counter == other.species_counter
        &&& self.node_counter == other.node_counter
        &&& self.innovation_counter == other.innovation_counter
    }

    /// The two populations have the same record of progress.
    pub open spec fn same_progress(&self, other: &Population) -> bool {
        &&& self.generation == other.generation
        &&& self.highest_fitness == other.highest_fitness
        &&& self.time_since_last_improvement == other.time_since_last_improvement
    }

    /// With the epoch that comes, the population has gone without
    /// improvement for `dropoff_age` epochs or more.
    pub open spec fn is_stagnant(&self) -> bool {
        (if self.fitness_within(self.highest_fitness) {
            self.time_since_last_improvement + 1
        } else {
            0
        }) >= self.settings.dropoff_age
    }

    /// No organism has a fitness above `bound`.
    pub open spec fn fitness_within(&self, bound: u64) -> bool {
        forall|t: int, p: int|
            0 <= t < self.species@.len() && 0 <= p < self.species@[t].organisms@.len() ==> (
            #[trigger] self.species@[t].organisms@[p]).fitness <= bound
    }

    /// Some organism has the fitness `fitness`.
    pub open spec fn fitness_reached(&self, fitness: u64) -> bool {
        exists|t: int, p: int|
            0 <= t < self.species@.len() && 0 <= p < self.species@[t].organisms@.len() && (
            #[trigger] self.species@[t].organisms@[p]).fitness == fitness
    }

    /// A population of `total_population` organisms in one species. Each
    /// organism has the given genome with all its weights replaced by random
    /// ones between minus one and one. The counters start above the
    /// genome's identities and innovation numbers.
    pub fn from_initial_genome(
        rng: &mut rand::StdRng,
        settings: &Settings,
        mutation_settings: &crate::mutation::Settings,
        compat_coefficients: &CompatCoefficients,
        genome: &Genome,
        total_population: usize,
    ) -> (population: Population)
        requires
            genome.nodes@.len() > 0,
            genome.wf(),
            total_population > 0,
            forall|i: int| 0 <= i < genome.nodes@.len() ==> (#[trigger] genome.nodes@[i]).id < usize::MAX,
            forall|i: int|
                0 <= i < genome.links@.len() ==> (#[trigger] genome.links@[i]).innovation
                    < u64::MAX,
        ensures
            population.wf(),
            population.settings == *settings,
            population.mutation_settings == *mutation_settings,
            population.compat_coefficients == *compat_coefficients,
            population.species@.len() == 1,
            population.species@[0].id == 0,
            population.species@[0].organisms@.len() == total_population,
            forall|k: int|
                0 <= k < total_population ==> (
                #[trigger] population.species@[0].organisms@[k]).genome.nodes@ == genome.nodes@
                    && population.species@[0].organisms@[k].genome.links@.len()
                    == genome.links@.len() && population.species@[0].organisms@[k].fitness == 0
                    && forall|i: int|
                    0 <= i < genome.links@.len() ==> weight_mutated(
                        genome.links@[i],
                        #[trigger] population.species@[0].organisms@[k].genome.links@[i],
                        LinkMutation::Reset,
                        ONE,
                    ),
            population.species_counter == 1,
            population.node_counter == max_node_id(genome.nodes@, genome.nodes@.len() as int) + 1,
            population.innovation_counter == max_innovation(
                genome.links@,
                genome.links@.len() as int,
            ) + 1,
            population.generation == 0,
            population.highest_fitness == 0,
            population.time_since_last_improvement == 0,
    {
        let mut max_id: usize = 0;
        let mut n: usize = 0;
        while n < genome.nodes.len()
            invariant
                n <= genome.nodes@.len(),
                max_id == max_node_id(genome.nodes@, n as int),
                max_id < usize::MAX,
                forall|i: int| 0 <= i < n ==> (#[trigger] genome.nodes@[i]).id <= max_id,
                forall|i: int|
                    0 <= i < genome.nodes@.len() ==> (#[trigger] genome.nodes@[i]).id < usize::MAX,
            decreases genome.nodes@.len() - n,
        {
            if genome.nodes[n].id > max_id {
                max_id = genome.nodes[n].id;
            }
            n += 1;
        }
        let mut max_innov: u64 = 0;
        let mut m: usize = 0;
        while m < genome.links.len()
            invariant
                m <= genome.links@.len(),
                max_innov == max_innovation(genome.links@, m as int),
                max_innov < u64::MAX,
                forall|i: int| 0 <= i < m ==> (#[trigger] genome.links@[i]).innovation <= max_innov,
                forall|i: int|
                    0 <= i < genome.links@.len() ==> (#[trigger] genome.links@[i]).innovation
                        < u64::MAX,
            decreases genome.links@.len() - m,
        {
            if genome.links[m].innovation > max_innov {
                max_innov = genome.links[m].innovation;
            }
            m += 1;
        }
        let node_counter = max_id + 1;
        let innovation_counter = max_innov + 1;
        let mut organisms: Vec<Organism> = Vec::new();
        while organisms.len() < total_population
            invariant
                organisms@.len() <= total_population,
                genome.wf(),
                counters_cover(node_counter, innovation_counter, genome),
                forall|k: int|
                    0 <= k < organisms@.len() ==> (#[trigger] organisms@[k]).wf() && counters_cover(
                        node_counter,
                        innovation_counter,
                        &organisms@[k].genome,
                    ) && organisms@[k].genome.nodes@ == genome.nodes@
                        && organisms@[k].genome.links@.len() == genome.links@.len()
                        && organisms@[k].fitness == 0 && forall|i: int|
                        0 <= i < genome.links@.len() ==> weight_mutated(
                            genome.links@[i],
                            #[trigger] organisms@[k].genome.links@[i],
                            LinkMutation::Reset,
                            ONE,
                        ),
            decreases total_population - organisms@.len(),
        {
            let mut new_genome = genome.duplicate();
            change_link_weights_reset_all(&mut new_genome, rng, ONE);
            proof {
                assert forall|i: int| 0 <= i < new_genome.links@.len() implies (
                #[trigger] new_genome.links@[i]).innovation < innovation_counter by {
                    assert(weight_mutated(
                        genome.links@[i],
                        new_genome.links@[i],
                        LinkMutation::Reset,
                        ONE,
                    ));
                }
            }
            organisms.push(Organism::new(&new_genome));
        }
        let species = Species::new(0, organisms);
        let population = Population {
            settings: *settings,
            mutation_settings: *mutation_settings,
            compat_coefficients: *compat_coefficients,
            node_counter,
            innovation_counter,
            species_counter: 1,
            species: vec![species],
            generation: 0,
            highest_fitness: 0,
            time_since_last_improvement: 0,
        };
        proof {
            assert(population.species@.len() == 1);
            assert(population.species@[0] == species);
            assert(organism_count(population.species@, 0) == 0);
            assert(organism_count(population.species@, 1) == total_population);
        }
        population
    }

    /// Tunes the compatibility threshold towards the target number of
    /// species.
    fn tune_threshold(&mut self)
        ensures
            final(self).settings.compat_threshold == tuned_threshold(
                old(self).settings.compat_threshold,
                old(self).generation,
                old(self).species@.len() as int,
                old(self).settings.target_num_species,
            ),
            final(self).settings.survival_threshold == old(self).settings.survival_threshold,
            final(self).settings.dropoff_age == old(self).settings.dropoff_age,
            final(self).settings.target_num_species == old(self).settings.target_num_species,
            final(self).mutation_settings == old(self).mutation_settings,
            final(self).compat_coefficients == old(self).compat_coefficients,
            final(self).same_counters(old(self)),
            final(self).same_progress(old(self)),
            final(self).species@ == old(self).species@,
    {
        if self.generation > 0 {
            let mut threshold = self.settings.compat_threshold;
            if self.species.len() < self.settings.target_num_species {
                threshold = if threshold >= THRESHOLD_STEP {
                    threshold - THRESHOLD_STEP
                } else {
                    0
                };
            }
            if self.species.len() > self.settings.target_num_species {
                threshold = if threshold > u64::MAX - THRESHOLD_STEP {
                    u64::MAX
                } else {
                    threshold + THRESHOLD_STEP
                };
            }
            if threshold < THRESHOLD_STEP {
                threshold = THRESHOLD_STEP;
            }
            self.settings.compat_threshold = threshold;
        }
    }

    /// Records whether the population has improved: where some organism's
    /// fitness exceeds the highest so far, that is recorded and the time
    /// without improvement starts anew; else it grows by one.
    fn note_progress(&mut self)
        requires
            old(self).time_since_last_improvement < usize::MAX,
        ensures
            final(self).same_tunables(old(self)),
            final(self).same_counters(old(self)),
            final(self).generation == old(self).generation,
            final(self).species@ == old(self).species@,
            old(self).fitness_within(old(self).highest_fitness) ==> final(self).highest_fitness
                == old(self).highest_fitness && final(self).time_since_last_improvement == old(self).time_since_last_improvement + 1,
            !old(self).fitness_within(old(self).highest_fitness) ==> final(self).highest_fitness
                > old(self).highest_fitness && old(self).fitness_within(
                final(self).highest_fitness,
            ) && old(self).fitness_reached(final(self).highest_fitness) && final(self).time_since_last_improvement == 0,
    {
        let best_fitness = match self.best_organism() {
            Some(organism) => organism.fitness,
            None => 0,
        };
        if self.highest_fitness >= best_fitness {
            self.time_since_last_improvement += 1;
        } else {
            self.time_since_last_improvement = 0;
            self.highest_fitness = best_fitness;
        }
    }

    /// Prepares every species for the epoch.
    fn prepare_species(&mut self)
        requires
            old(self).wf(),
            forall|i: int|
                0 <= i < old(self).species@.len() ==> (#[trigger] old(self).species@[i]).age
                    < usize::MAX && old(self).species@[i].time_since_last_improvement
                    < usize::MAX,
        ensures
            final(self).same_tunables(old(self)),
            final(self).same_counters(old(self)),
            final(self).same_progress(old(self)),
            final(self).wf(),
            final(self).species@.len() == old(self).species@.len(),
            organism_count(final(self).species@, final(self).species@.len() as int)
                == organism_count(old(self).species@, old(self).species@.len() as int),
            forall|i: int|
                0 <= i < final(self).species@.len() ==> (
                #[trigger] final(self).species@[i]).best_offspring == 1 && adj_fitness_sum(
                    final(self).species@[i].organisms@,
                    final(self).species@[i].organisms@.len() as int,
                ) <= u64::MAX && final(self).species@[i].id == old(self).species@[i].id,
            forall|i: int|
                0 <= i < final(self).species@.len() ==> is_prepared(
                    old(self).species@[i],
                    old(self).settings.dropoff_age,
                    #[trigger] final(self).species@[i],
                ),
            forall|i: int|
                0 <= i < final(self).species@.len() ==> is_clocked(
                    old(self).species@[i],
                    old(self).settings.dropoff_age,
                    #[trigger] final(self).species@[i],
                ),
    {
        let ghost species0 = self.species@;
        let mut i: usize = 0;
        while i < self.species.len()
            invariant
                i <= self.species@.len(),
                self.species@.len() == species0.len(),
                species0 == old(self).species@,
                old(self).wf(),
                self.same_tunables(old(self)),
                self.same_counters(old(self)),
                self.same_progress(old(self)),
                forall|k: int|
                    0 <= k < species0.len() ==> (#[trigger] species0[k]).age < usize::MAX
                        && species0[k].time_since_last_improvement < usize::MAX,
                forall|k: int| i <= k < species0.len() ==> #[trigger] self.species@[k] == species0[k],
                forall|k: int|
                    0 <= k < i ==> (#[trigger] self.species@[k]).organisms@.len()
                        == species0[k].organisms@.len() && self.species@[k].wf()
                        && self.species@[k].is_covered(self.node_counter, self.innovation_counter)
                        && self.species@[k].best_offspring == 1 && adj_fitness_sum(
                        self.species@[k].organisms@,
                        self.species@[k].organisms@.len() as int,
                    ) <= u64::MAX && self.species@[k].id == species0[k].id,
                forall|k: int|
                    0 <= k < i ==> is_prepared(
                        species0[k],
                        self.settings.dropoff_age,
                        #[trigger] self.species@[k],
                    ),
                forall|k: int|
                    0 <= k < i ==> is_clocked(
                        species0[k],
                        self.settings.dropoff_age,
                        #[trigger] self.species@[k],
                    ),
            decreases self.species@.len() - i,
        {
            let dropoff_age = self.settings.dropoff_age;
            let ghost before = self.species@[i as int];
            assert(before == species0[i as int]);
            assert(before.wf() && before.is_covered(self.node_counter, self.innovation_counter));
            self.species[i].prepare_for_epoch(dropoff_age);
            proof {
                reveal(is_prepared);
                reveal(is_clocked);
                let after = self.species@[i as int];
                assert forall|k: int| 0 <= k < after.organisms@.len() implies counters_cover(
                    self.node_counter,
                    self.innovation_counter,
                    &(#[trigger] after.organisms@[k]).genome,
                ) by {
                    let m = choose|m: int|
                        0 <= m < before.organisms@.len() && #[trigger] after.organisms@[k]
                            == prepared(
                            #[trigger] before.organisms@[m],
                            before.organisms@.len() as int,
                            before.time_since_last_improvement > dropoff_age,
                        );
                    assert(counters_cover(
                        self.node_counter,
                        self.innovation_counter,
                        &before.organisms@[m].genome,
                    ));
                }
                assert(counters_cover(
                    self.node_counter,
                    self.innovation_counter,
                    &after.organisms@[0].genome,
                ));
            }
            i += 1;
        }
        proof {
            lemma_organism_count_same(species0, self.species@, species0.len() as int);
        }
    }

    /// Prunes every species to its elite.
    fn prune_species(&mut self)
        requires
            old(self).sound_species(),
            forall|i: int|
                0 <= i < old(self).species@.len() ==> (
                #[trigger] old(self).species@[i]).organisms@.len() > 0,
        ensures
            final(self).same_tunables(old(self)),
            final(self).same_counters(old(self)),
            final(self).same_progress(old(self)),
            final(self).sound_species(),
            final(self).species@.len() == old(self).species@.len(),
            forall|i: int|
                0 <= i < final(self).species@.len() ==> (
                #[trigger] final(self).species@[i]).organisms@.len() > 0 && same_bookkeeping(
                    final(self).species@[i],
                    old(self).species@[i],
                ) && final(self).species@[i].organisms@ == old(self).species@[i].organisms@.take(
                    lesser(
                        old(self).species@[i].organisms@.len() as int,
                        elite_size(
                            old(self).species@[i].organisms@.len() as int,
                            old(self).settings.survival_threshold,
                        ),
                    ),
                ),
    {
        let ghost species0 = self.species@;
        let mut i: usize = 0;
        while i < self.species.len()
            invariant
                i <= self.species@.len(),
                self.species@.len() == species0.len(),
                species0 == old(self).species@,
                old(self).sound_species(),
                self.same_tunables(old(self)),
                self.same_counters(old(self)),
                self.same_progress(old(self)),
                forall|k: int|
                    0 <= k < species0.len() ==> (#[trigger] species0[k]).organisms@.len() > 0,
                forall|k: int| i <= k < species0.len() ==> #[trigger] self.species@[k] == species0[k],
                forall|k: int|
                    0 <= k < i ==> (#[trigger] self.species@[k]).organisms@.len() > 0
                        && self.species@[k].organisms@ == species0[k].organisms@.take(
                        lesser(
                            species0[k].organisms@.len() as int,
                            elite_size(
                                species0[k].organisms@.len() as int,
                                self.settings.survival_threshold,
                            ),
                        ),
                    ) && same_bookkeeping(self.species@[k], species0[k]) && self.species@[k].wf()
                        && self.species@[k].is_covered(self.node_counter, self.innovation_counter),
            decreases self.species@.len() - i,
        {
            let survival_threshold = self.settings.survival_threshold;
            let ghost before = self.species@[i as int];
            assert(before == species0[i as int]);
            assert(before.wf() && before.is_covered(self.node_counter, self.innovation_counter));
            self.species[i].prune_to_elite(survival_threshold);
            proof {
                let after = self.species@[i as int];
                assert forall|k: int| 0 <= k < after.organisms@.len() implies counters_cover(
                    self.node_counter,
                    self.innovation_counter,
                    &(#[trigger] after.organisms@[k]).genome,
                ) by {
                    assert(after.organisms@[k] == before.organisms@[k]);
                }
            }
            i += 1;
        }
    }

    /// Lets every species with an allotment reproduce, and collects the
    /// offspring.
    fn reproduce_species(&self, rng: &mut rand::StdRng, state: &mut State) -> (offspring: Vec<
        Organism,
    >)
        requires
            self.sound_species(),
            old(state).node_counter == self.node_counter,
            old(state).innovation_counter == self.innovation_counter,
            old(state).link_innovations@ == Map::<crate::mutation::NewLinkInnovation, u64>::empty(),
            old(state).node_innovations@ == Map::<
                crate::mutation::NewNodeInnovation,
                (crate::genes::NodeId, u64, u64),
            >::empty(),
            old(state).wf(),
            forall|i: int|
                0 <= i < self.species@.len() ==> (#[trigger] self.species@[i]).organisms@.len() > 0
                    && (self.species@[i].expected_offspring > 0 ==> 1
                    <= self.species@[i].best_offspring <= self.species@[i].expected_offspring),
            self.node_counter + offspring_count(self.species@, self.species@.len() as int)
                <= usize::MAX,
            self.innovation_counter + 2 * offspring_count(
                self.species@,
                self.species@.len() as int,
            ) <= u64::MAX,
        ensures
            offspring@.len() == offspring_count(self.species@, self.species@.len() as int),
            forall|k: int|
                0 <= k < offspring@.len() ==> (#[trigger] offspring@[k]).wf() && counters_cover(
                    final(state).node_counter,
                    final(state).innovation_counter,
                    &offspring@[k].genome,
                ),
            self.node_counter <= final(state).node_counter <= self.node_counter + offspring@.len(),
            self.innovation_counter <= final(state).innovation_counter <= self.innovation_counter
                + 2 * offspring@.len(),
            forall|k: int| 0 <= k < offspring@.len() ==> is_fresh(#[trigger] offspring@[k]),
            forall|i: int|
                0 <= i < self.species@.len() && (#[trigger] self.species@[i]).expected_offspring
                    > 0 ==> among(offspring@, &self.species@[i].best_genome),
            forall|k: int|
                0 <= k < offspring@.len() ==> has_origin(
                    self.species@,
                    &self.mutation_settings,
                    &(#[trigger] offspring@[k]).genome,
                ),
    {
        let ghost fresh = *state;
        let ghost len = self.species@.len() as int;
        let mut offspring: Vec<Organism> = Vec::new();
        let mut i: usize = 0;
        proof {
            assert forall|s: int| 0 <= s < len implies (#[trigger] self.species@[s]).is_behind(
                &fresh,
            ) by {
                let species = self.species@[s];
                assert(species.is_covered(self.node_counter, self.innovation_counter));
                lemma_fresh_state_is_ahead(&fresh, &species.best_genome);
                assert forall|k: int| 0 <= k < species.organisms@.len() implies fresh.is_ahead_of(
                    &(#[trigger] species.organisms@[k]).genome,
                ) by {
                    lemma_fresh_state_is_ahead(&fresh, &species.organisms@[k].genome);
                }
            }
        }
        while i < self.species.len()
            invariant
                i <= self.species@.len(),
                len == self.species@.len(),
                self.sound_species(),
                fresh.node_counter == self.node_counter,
                fresh.innovation_counter == self.innovation_counter,
                forall|s: int| 0 <= s < len ==> (#[trigger] self.species@[s]).is_behind(&fresh),
                forall|s: int|
                    0 <= s < len ==> (#[trigger] self.species@[s]).organisms@.len() > 0 && (
                    self.species@[s].expected_offspring > 0 ==> 1
                        <= self.species@[s].best_offspring <= self.species@[s].expected_offspring),
                self.node_counter + offspring_count(self.species@, len) <= usize::MAX,
                self.innovation_counter + 2 * offspring_count(self.species@, len) <= u64::MAX,
                state.wf(),
                state.extends(&fresh),
                offspring@.len() == offspring_count(self.species@, i as int),
                state.node_counter <= self.node_counter + offspring@.len(),
                state.innovation_counter <= self.innovation_counter + 2 * offspring@.len(),
                forall|k: int|
                    0 <= k < offspring@.len() ==> (#[trigger] offspring@[k]).wf()
                        && counters_cover(
                        state.node_counter,
                        state.innovation_counter,
                        &offspring@[k].genome,
                    ),
                forall|k: int| 0 <= k < offspring@.len() ==> is_fresh(#[trigger] offspring@[k]),
                forall|s: int|
                    0 <= s < i && (#[trigger] self.species@[s]).expected_offspring > 0 ==> among(
                        offspring@,
                        &self.species@[s].best_genome,
                    ),
                forall|k: int|
                    0 <= k < offspring@.len() ==> has_origin(
                        self.species@,
                        &self.mutation_settings,
                        &(#[trigger] offspring@[k]).genome,
                    ),
            decreases self.species@.len() - i,
        {
            proof {
                lemma_counts_grow(self.species@, i + 1, len);
                lemma_counts_not_negative(self.species@, i as int);
            }
            if self.species[i].expected_offspring > 0 {
                let ghost state_before = *state;
                let ghost made = offspring@;
                proof {
                    assert forall|s: int| 0 <= s < len implies (
                    #[trigger] self.species@[s]).wf() && self.species@[s].is_behind(state) by {
                        let species = self.species@[s];
                        assert(species.is_behind(&fresh));
                        lemma_extension_stays_ahead(&fresh, state, &species.best_genome);
                        assert forall|k: int|
                            0 <= k < species.organisms@.len() implies state.is_ahead_of(
                            &(#[trigger] species.organisms@[k]).genome,
                        ) by {
                            lemma_extension_stays_ahead(
                                &fresh,
                                state,
                                &species.organisms@[k].genome,
                            );
                        }
                    }
                }
                let mut produced = self.species[i].reproduce(
                    &self.species,
                    &self.mutation_settings,
                    rng,
                    state,
                );
                proof {
                    crate::mutation::lemma_extends_carries_over(&fresh, &state_before, state);
                    assert forall|k: int| 0 <= k < made.len() implies counters_cover(
                        state.node_counter,
                        state.innovation_counter,
                        &(#[trigger] made[k]).genome,
                    ) by {
                        lemma_cover_rises(
                            state_before.node_counter,
                            state_before.innovation_counter,
                            state.node_counter,
                            state.innovation_counter,
                            &made[k].genome,
                        );
                    }
                }
                let ghost born = produced@;
                offspring.append(&mut produced);
                proof {
                    assert(offspring@ == made + born);
                    assert(offspring@[made.len() as int] == born[0]);
                    assert forall|s: int|
                        0 <= s < i && (#[trigger] self.species@[s]).expected_offspring
                            > 0 implies among(offspring@, &self.species@[s].best_genome) by {
                        assert(among(made, &self.species@[s].best_genome));
                        let k = choose|k: int|
                            0 <= k < made.len() && same_genome(
                                &(#[trigger] made[k]).genome,
                                &self.species@[s].best_genome,
                            );
                        assert(offspring@[k] == made[k]);
                    }
                    assert forall|k: int| 0 <= k < offspring@.len() implies is_fresh(
                        #[trigger] offspring@[k],
                    ) by {
                        if k < made.len() {
                            assert(offspring@[k] == made[k]);
                        } else {
                            assert(offspring@[k] == born[k - made.len()]);
                        }
                    }
                    assert forall|k: int| 0 <= k < offspring@.len() implies has_origin(
                        self.species@,
                        &self.mutation_settings,
                        &(#[trigger] offspring@[k]).genome,
                    ) by {
                        if k < made.len() {
                            assert(offspring@[k] == made[k]);
                        } else {
                            let m = k - made.len();
                            assert(offspring@[k] == born[m]);
                            assert(is_child_of(
                                self.species@[i as int],
                                self.species@,
                                &self.mutation_settings,
                                &born[m].genome,
                            ));
                        }
                    }
                }
            }
            i += 1;
        }
        offspring
    }

    /// Empties every species of its organisms.
    fn clear_species(&mut self)
        requires
            old(self).sound_species(),
        ensures
            final(self).same_tunables(old(self)),
            final(self).same_counters(old(self)),
            final(self).same_progress(old(self)),
            final(self).sound_species(),
            final(self).species@.len() == old(self).species@.len(),
            organism_count(final(self).species@, final(self).species@.len() as int) == 0,
            forall|i: int|
                0 <= i < final(self).species@.len() ==> (
                #[trigger] final(self).species@[i]).organisms@.len() == 0 && same_bookkeeping(
                    final(self).species@[i],
                    old(self).species@[i],
                ),
    {
        let ghost species0 = self.species@;
        let mut i: usize = 0;
        while i < self.species.len()
            invariant
                i <= self.species@.len(),
                self.species@.len() == species0.len(),
                species0 == old(self).species@,
                old(self).sound_species(),
                self.same_tunables(old(self)),
                self.same_counters(old(self)),
                self.same_progress(old(self)),
                forall|k: int| i <= k < species0.len() ==> #[trigger] self.species@[k] == species0[k],
                forall|k: int|
                    0 <= k < i ==> (#[trigger] self.species@[k]).organisms@.len() == 0
                        && same_bookkeeping(self.species@[k], species0[k]),
                organism_count(self.species@, i as int) == 0,
            decreases self.species@.len() - i,
        {
            let ghost before = self.species@;
            self.species[i].organisms.clear();
            proof {
                lemma_organism_count_same(before, self.species@, i as int);
            }
            i += 1;
        }
        proof {
            assert forall|k: int| 0 <= k < self.species@.len() implies (
            #[trigger] self.species@[k]).wf() && self.species@[k].is_covered(
                self.node_counter,
                self.innovation_counter,
            ) by {
                assert(species0[k].wf() && species0[k].is_covered(
                    self.node_counter,
                    self.innovation_counter,
                ));
            }
        }
    }

    /// Puts the organisms into the emptied species, one after the other.
    fn settle(&mut self, offspring: Vec<Organism>)
        requires
            old(self).species@.len() > 0,
            old(self).sound_species(),
            forall|i: int|
                0 <= i < old(self).species@.len() ==> (
                #[trigger] old(self).species@[i]).organisms@.len() == 0,
            forall|k: int|
                0 <= k < offspring@.len() ==> (#[trigger] offspring@[k]).wf() && counters_cover(
                    old(self).node_counter,
                    old(self).innovation_counter,
                    &offspring@[k].genome,
                ),
            old(self).species_counter + offspring@.len() <= usize::MAX,
        ensures
            final(self).same_tunables(old(self)),
            final(self).same_progress(old(self)),
            final(self).node_counter == old(self).node_counter,
            final(self).innovation_counter == old(self).innovation_counter,
            old(self).species_counter <= final(self).species_counter <= old(self).species_counter
                + offspring@.len(),
            final(self).sound_species(),
            final(self).species@.len() >= old(self).species@.len(),
            organism_count(final(self).species@, final(self).species@.len() as int)
                == organism_count(old(self).species@, old(self).species@.len() as int)
                + offspring@.len(),
            is_settling(
                old(self).species@,
                old(self).species_counter,
                offspring@,
                final(self).species@,
                final(self).species_counter,
                old(self).compat_coefficients,
                old(self).settings.compat_threshold,
            ),
    {
        let mut rest = reverse_organisms(offspring);
        let ghost total = offspring@.len();
        proof {
            reveal(is_settling);
            reveal(settled);
            assert(offspring@.take(0) =~= Seq::<Organism>::empty());
            assert forall|s: int, o: int|
                0 <= s < self.species@.len() && 0 <= o
                    < self.species@[s].organisms@.len() implies #[trigger] placed(
                self.species@,
                self.compat_coefficients,
                self.settings.compat_threshold,
                s,
                o,
            ) by {}
        }
        while rest.len() > 0
            invariant
                rest@.len() <= total,
                total == offspring@.len(),
                self.species@.len() >= old(self).species@.len(),
                old(self).species@.len() > 0,
                self.sound_species(),
                self.same_tunables(old(self)),
                self.same_progress(old(self)),
                self.node_counter == old(self).node_counter,
                self.innovation_counter == old(self).innovation_counter,
                old(self).species_counter <= self.species_counter <= old(self).species_counter
                    + total - rest@.len(),
                old(self).species_counter + total <= usize::MAX,
                forall|k: int|
                    0 <= k < rest@.len() ==> (#[trigger] rest@[k]).wf() && counters_cover(
                        self.node_counter,
                        self.innovation_counter,
                        &rest@[k].genome,
                    ),
                forall|k: int| 0 <= k < rest@.len() ==> #[trigger] rest@[k] == offspring@[total - 1 - k],
                organism_count(self.species@, self.species@.len() as int) == organism_count(
                    old(self).species@,
                    old(self).species@.len() as int,
                ) + total - rest@.len(),
                is_settling(
                    old(self).species@,
                    old(self).species_counter,
                    offspring@.take(total - rest@.len()),
                    self.species@,
                    self.species_counter,
                    self.compat_coefficients,
                    self.settings.compat_threshold,
                ),
            decreases rest@.len(),
        {
            let ghost before = self.species@;
            let ghost counter = self.species_counter;
            let ghost done = offspring@.take(total - rest@.len());
            let ghost last = rest@[rest@.len() - 1];
            assert(last.wf());
            match rest.pop() {
                Some(organism) => {
                    assert(organism == last);
                    proof {
                        assert forall|i: int| 0 <= i < before.len() implies (
                        #[trigger] before[i]).best_genome.wf() by {
                            assert(before[i].wf());
                        }
                    }
                    self.insert_organism(organism);
                    proof {
                        let fit = first_fit(
                            before,
                            self.compat_coefficients,
                            self.settings.compat_threshold,
                            organism.genome.links@,
                            0,
                        );
                        lemma_first_fit_range(
                            before,
                            self.compat_coefficients,
                            self.settings.compat_threshold,
                            organism.genome.links@,
                            0,
                        );
                        lemma_insertion_settles(
                            old(self).species@,
                            old(self).species_counter,
                            done,
                            before,
                            counter,
                            self.compat_coefficients,
                            self.settings.compat_threshold,
                            organism,
                            self.species@,
                            self.species_counter,
                        );
                        assert(done.push(organism) =~= offspring@.take(total - rest@.len()));
                        assert forall|i: int| 0 <= i < self.species@.len() implies (
                        #[trigger] self.species@[i]).wf() && self.species@[i].is_covered(
                            self.node_counter,
                            self.innovation_counter,
                        ) by {
                            let after = self.species@[i];
                            if i != fit {
                                assert(after == before[i]);
                                assert(before[i].wf());
                            } else if fit < before.len() {
                                assert(before[i].wf() && before[i].is_covered(
                                    self.node_counter,
                                    self.innovation_counter,
                                ));
                                assert forall|k: int|
                                    0 <= k < after.organisms@.len() implies (
                                #[trigger] after.organisms@[k]).wf() && counters_cover(
                                    self.node_counter,
                                    self.innovation_counter,
                                    &after.organisms@[k].genome,
                                ) by {
                                    if k < before[i].organisms@.len() {
                                        assert(after.organisms@[k] == before[i].organisms@[k]);
                                        assert(before[i].organisms@[k].wf());
                                    }
                                }
                            } else {
                                assert forall|k: int|
                                    0 <= k < after.organisms@.len() implies (
                                #[trigger] after.organisms@[k]).wf() && counters_cover(
                                    self.node_counter,
                                    self.innovation_counter,
                                    &after.organisms@[k].genome,
                                ) by {
                                    assert(after.organisms@[k] == organism);
                                }
                            }
                        }
                    }
                },
                None => {},
            }
        }
        proof {
            assert(offspring@.take(total as int) =~= offspring@);
        }
    }

    /// Removes the species without organisms.
    fn drop_empty_species(&mut self)
        requires
            old(self).sound_species(),
        ensures
            final(self).same_tunables(old(self)),
            final(self).same_counters(old(self)),
            final(self).same_progress(old(self)),
            final(self).sound_species(),
            final(self).species@ == old(self).species@.filter(
                |species: Species| species.organisms@.len() > 0,
            ),
            forall|i: int|
                0 <= i < final(self).species@.len() ==> (
                #[trigger] final(self).species@[i]).organisms@.len() > 0,
            organism_count(final(self).species@, final(self).species@.len() as int)
                == organism_count(old(self).species@, old(self).species@.len() as int),
    {
        let ghost species0 = self.species@;
        let ghost keep = |species: Species| species.organisms@.len() > 0;
        let ghost mut seen: int = 0;
        let mut i: usize = 0;
        assert(species0.take(0).filter(keep) =~= Seq::<Species>::empty()) by {
            assert(species0.take(0) =~= Seq::<Species>::empty());
        }
        assert(species0.skip(0) =~= species0);
        while i < self.species.len()
            invariant
                species0 == old(self).species@,
                keep == (|species: Species| species.organisms@.len() > 0),
                old(self).sound_species(),
                self.same_tunables(old(self)),
                self.same_counters(old(self)),
                self.same_progress(old(self)),
                0 <= seen <= species0.len(),
                i == species0.take(seen).filter(keep).len(),
                self.species@ == species0.take(seen).filter(keep) + species0.skip(seen),
                organism_count(self.species@, self.species@.len() as int) == organism_count(
                    species0,
                    species0.len() as int,
                ),
            decreases species0.len() - seen,
        {
            let ghost before = self.species@;
            proof {
                assert(seen < species0.len());
                assert(before[i as int] == species0.skip(seen)[0]);
                species0.lemma_take_succ_push(seen);
                species0.take(seen).lemma_filter_push(species0[seen], keep);
            }
            if self.species[i].organisms.len() == 0 {
                let removed = self.species.remove(i);
                proof {
                    lemma_organism_count_remove(before, i as int, before.len() as int);
                    assert(self.species@ =~= species0.take(seen + 1).filter(keep) + species0.skip(
                        seen + 1,
                    ));
                }
            } else {
                proof {
                    assert(self.species@ =~= species0.take(seen + 1).filter(keep) + species0.skip(
                        seen + 1,
                    ));
                }
                i += 1;
            }
            proof {
                seen = seen + 1;
            }
        }
        proof {
            assert(seen == species0.len()) by {
                if seen < species0.len() {
                    assert(self.species@.len() == i + species0.skip(seen).len());
                }
            }
            assert(species0.take(seen) =~= species0);
            assert(species0.skip(seen) =~= Seq::<Species>::empty());
            assert(self.species@ =~= species0.filter(keep));
            broadcast use vstd::seq_lib::group_filter_ensures;
            assert forall|k: int| 0 <= k < self.species@.len() implies (
            #[trigger] self.species@[k]).organisms@.len() > 0 && self.species@[k].wf()
                && self.species@[k].is_covered(self.node_counter, self.innovation_counter) by {
                let x = self.species@[k];
                assert(keep(species0.filter(keep)[k]));
                assert(species0.filter(keep).contains(x));
                species0.lemma_filter_contains_rev(keep, x);
                let m = choose|m: int| 0 <= m < species0.len() && species0[m] == x;
                assert(species0[m].wf());
            }
        }
    }

    /// Allots the offspring to the prepared species: see
    /// [`Population::allot_offspring`]. Each species with an allotment then
    /// has at least one offspring that gets the genome that stands for it.
    fn allot(&mut self)
        requires
            old(self).wf(),
            forall|i: int|
                0 <= i < old(self).species@.len() ==> (
                #[trigger] old(self).species@[i]).best_offspring == 1 && adj_fitness_sum(
                    old(self).species@[i].organisms@,
                    old(self).species@[i].organisms@.len() as int,
                ) <= u64::MAX,
        ensures
            final(self).same_tunables(old(self)),
            final(self).same_counters(old(self)),
            final(self).generation == old(self).generation,
            final(self).highest_fitness == old(self).highest_fitness,
            final(self).time_since_last_improvement == (if old(self).time_since_last_improvement
                >= old(self).settings.dropoff_age {
                0
            } else {
                old(self).time_since_last_improvement
            }),
            final(self).wf(),
            final(self).species@.len() == old(self).species@.len(),
            offspring_count(final(self).species@, final(self).species@.len() as int)
                == organism_count(old(self).species@, old(self).species@.len() as int),
            is_allotment(
                old(self).species@,
                old(self).time_since_last_improvement >= old(self).settings.dropoff_age,
                final(self).species@,
            ),
            forall|i: int|
                0 <= i < old(self).species@.len() ==> (#[trigger] final(self).species@[i]).organisms@
                    == old(self).species@[i].organisms@ && final(self).species@[i].id == old(self).species@[i].id && final(self).species@[i].age == old(self).species@[i].age
                    && final(self).species@[i].highest_fitness == old(self).species@[i].highest_fitness && final(self).species@[i].best_genome == old(self).species@[i].best_genome,
            forall|i: int|
                0 <= i < final(self).species@.len() && (
                #[trigger] final(self).species@[i]).expected_offspring > 0 ==> 1
                    <= final(self).species@[i].best_offspring
                    <= final(self).species@[i].expected_offspring,
            forall|i: int|
                0 <= i < final(self).species@.len() ==> allotted_books(
                    old(self).species@,
                    old(self).time_since_last_improvement >= old(self).settings.dropoff_age,
                    i,
                    #[trigger] final(self).species@[i],
                ),
    {
        let ghost prepared_species = self.species@;
        let ghost stagnant = self.time_since_last_improvement >= self.settings.dropoff_age;
        self.allot_offspring();
        let ghost allotted = self.species@;
        proof {
            let len = prepared_species.len() as int;
            let top = first_best(prepared_species, -1, len);
            let second = first_best(prepared_species, top, len);
            lemma_first_best_range(prepared_species, -1, len);
            lemma_first_best_range(prepared_species, top, len);
            lemma_counts_grow(prepared_species, 1, len);
            assert(organism_count(prepared_species, 0) == 0);
            assert(prepared_species[0].organisms@.len() > 0);
            if len > 1 {
                lemma_counts_grow(prepared_species, 2, len);
                assert(organism_count(prepared_species, 1) == organism_count(prepared_species, 0)
                    + prepared_species[0].organisms@.len());
                assert(prepared_species[1].organisms@.len() > 0);
            }
            assert forall|i: int|
                0 <= i < allotted.len() && (#[trigger] allotted[i]).expected_offspring
                    > 0 implies 1 <= allotted[i].best_offspring
                <= allotted[i].expected_offspring by {
                if stagnant {
                    if i != top && i != second {
                        assert(allotted[i].expected_offspring == 0);
                    }
                } else {
                    assert(same_but_allotment(allotted[i], prepared_species[i]));
                    assert(prepared_species[i].best_offspring == 1);
                }
            }
            assert forall|i: int| 0 <= i < allotted.len() implies (#[trigger] allotted[i]).wf()
                && allotted[i].is_covered(self.node_counter, self.innovation_counter)
                && allotted[i].organisms@.len() > 0 by {
                assert(prepared_species[i].wf() && prepared_species[i].is_covered(
                    self.node_counter,
                    self.innovation_counter,
                ));
            }
            lemma_organism_count_same(prepared_species, allotted, len);
        }
    }

    /// Raises the counters of node identities and innovation numbers.
    fn raise_counters(&mut self, node_counter: usize, innovation_counter: u64)
        requires
            old(self).sound_species(),
            old(self).node_counter <= node_counter,
            old(self).innovation_counter <= innovation_counter,
        ensures
            final(self).same_tunables(old(self)),
            final(self).same_progress(old(self)),
            final(self).species_counter == old(self).species_counter,
            final(self).node_counter == node_counter,
            final(self).innovation_counter == innovation_counter,
            final(self).species@ == old(self).species@,
            final(self).sound_species(),
    {
        let ghost lower_node_counter = self.node_counter;
        let ghost lower_innovation_counter = self.innovation_counter;
        self.node_counter = node_counter;
        self.innovation_counter = innovation_counter;
        proof {
            assert forall|i: int| 0 <= i < self.species@.len() implies (
            #[trigger] self.species@[i]).wf() && self.species@[i].is_covered(
                self.node_counter,
                self.innovation_counter,
            ) by {
                let species = self.species@[i];
                assert(species == old(self).species@[i]);
                assert(species.is_covered(lower_node_counter, lower_innovation_counter));
                lemma_cover_rises(
                    lower_node_counter,
                    lower_innovation_counter,
                    self.node_counter,
                    self.innovation_counter,
                    &species.best_genome,
                );
                assert forall|k: int| 0 <= k < species.organisms@.len() implies counters_cover(
                    self.node_counter,
                    self.innovation_counter,
                    &(#[trigger] species.organisms@[k]).genome,
                ) by {
                    lemma_cover_rises(
                        lower_node_counter,
                        lower_innovation_counter,
                        self.node_counter,
                        self.innovation_counter,
                        &species.organisms@[k].genome,
                    );
                }
            }
        }
    }

    /// Lets the species breed: every species is prepared, gets its
    /// allotment of offspring, is pruned to its elite and reproduces. The
    /// result is the offspring and, for the proof, the species as they were
    /// when prepared and when allotted; the species are left as the elites
    /// that have bred.
    fn breed(&mut self, rng: &mut rand::StdRng) -> (bred: (
        Vec<Organism>,
        Ghost<Seq<Species>>,
        Ghost<Seq<Species>>,
    ))
        requires
            old(self).wf(),
            forall|i: int|
                0 <= i < old(self).species@.len() ==> (#[trigger] old(self).species@[i]).age
                    < usize::MAX && old(self).species@[i].time_since_last_improvement
                    < usize::MAX,
            old(self).node_counter + organism_count(
                old(self).species@,
                old(self).species@.len() as int,
            ) <= usize::MAX,
            old(self).innovation_counter + 2 * organism_count(
                old(self).species@,
                old(self).species@.len() as int,
            ) <= u64::MAX,
        ensures
            final(self).same_tunables(old(self)),
            final(self).generation == old(self).generation,
            final(self).highest_fitness == old(self).highest_fitness,
            final(self).time_since_last_improvement == (if old(self).time_since_last_improvement
                >= old(self).settings.dropoff_age {
                0
            } else {
                old(self).time_since_last_improvement
            }),
            final(self).species_counter == old(self).species_counter,
            old(self).node_counter <= final(self).node_counter <= old(self).node_counter
                + bred.0@.len(),
            old(self).innovation_counter <= final(self).innovation_counter <= old(self).innovation_counter + 2 * bred.0@.len(),
            final(self).sound_species(),
            final(self).species@.len() == old(self).species@.len(),
            bred.0@.len() == organism_count(old(self).species@, old(self).species@.len() as int),
            forall|k: int|
                0 <= k < bred.0@.len() ==> (#[trigger] bred.0@[k]).wf() && counters_cover(
                    final(self).node_counter,
                    final(self).innovation_counter,
                    &bred.0@[k].genome,
                ),
            is_breeding(
                old(self).species@,
                old(self).settings.dropoff_age,
                old(self).settings.survival_threshold,
                old(self).time_since_last_improvement >= old(self).settings.dropoff_age,
                &old(self).mutation_settings,
                bred.1@,
                bred.2@,
                final(self).species@,
                bred.0@,
            ),
    {
        let ghost stagnant = self.time_since_last_improvement >= self.settings.dropoff_age;
        self.prepare_species();
        let ghost prepared_species = self.species@;
        self.allot();
        let ghost allotted = self.species@;
        self.prune_species();
        proof {
            lemma_offspring_count_same(allotted, self.species@, allotted.len() as int);
            assert forall|i: int|
                0 <= i < self.species@.len() && (#[trigger] self.species@[i]).expected_offspring
                    > 0 implies 1 <= self.species@[i].best_offspring
                <= self.species@[i].expected_offspring by {
                assert(same_bookkeeping(self.species@[i], allotted[i]));
            }
        }
        let mut state = State::new(self.node_counter, self.innovation_counter);
        let offspring = self.reproduce_species(rng, &mut state);
        self.raise_counters(state.node_counter, state.innovation_counter);
        proof {
            lemma_books_kept(
                old(self).species@,
                old(self).settings.dropoff_age,
                stagnant,
                prepared_species,
                allotted,
            );
            reveal(is_breeding);
        }
        (offspring, Ghost(prepared_species), Ghost(allotted))
    }

    /// Puts the offspring in the place of their parents: the species are
    /// emptied, each of the offspring comes into the first species that it
    /// is compatible with or founds a new one, and the species left without
    /// organisms are removed. The result is, for the proof, the species as
    /// they were when emptied and when all offspring were placed.
    fn respeciate(&mut self, offspring: Vec<Organism>) -> (stages: (
        Ghost<Seq<Species>>,
        Ghost<Seq<Species>>,
    ))
        requires
            old(self).species@.len() > 0,
            old(self).sound_species(),
            forall|k: int|
                0 <= k < offspring@.len() ==> (#[trigger] offspring@[k]).wf() && counters_cover(
                    old(self).node_counter,
                    old(self).innovation_counter,
                    &offspring@[k].genome,
                ),
            old(self).species_counter + offspring@.len() <= usize::MAX,
        ensures
            final(self).same_tunables(old(self)),
            final(self).same_progress(old(self)),
            final(self).node_counter == old(self).node_counter,
            final(self).innovation_counter == old(self).innovation_counter,
            old(self).species_counter <= final(self).species_counter <= old(self).species_counter
                + offspring@.len(),
            final(self).sound_species(),
            forall|i: int|
                0 <= i < final(self).species@.len() ==> (
                #[trigger] final(self).species@[i]).organisms@.len() > 0,
            organism_count(final(self).species@, final(self).species@.len() as int)
                == offspring@.len(),
            stages.0@.len() == old(self).species@.len(),
            forall|i: int|
                0 <= i < old(self).species@.len() ==> same_bookkeeping(
                    #[trigger] stages.0@[i],
                    old(self).species@[i],
                ),
            is_settling(
                stages.0@,
                old(self).species_counter,
                offspring@,
                stages.1@,
                final(self).species_counter,
                old(self).compat_coefficients,
                old(self).settings.compat_threshold,
            ),
            final(self).species@ == stages.1@.filter(
                |species: Species| species.organisms@.len() > 0,
            ),
    {
        self.clear_species();
        let ghost cleared = self.species@;
        self.settle(offspring);
        let ghost all = self.species@;
        self.drop_empty_species();
        (Ghost(cleared), Ghost(all))
    }

    /// Makes the next generation. The compatibility threshold is tuned and
    /// the population's progress recorded; every species is prepared, gets
    /// its allotment of offspring, is pruned to its elite and reproduces;
    /// the offspring replace their parents, each in the first species that
    /// it is compatible with or in a new one; species left without
    /// organisms are removed.
    ///
    /// The number of organisms stays the same, and none of them has a
    /// fitness yet. Each is the offspring of a species with an allotment,
    /// bred from its elite, and the genome that stood for such a species
    /// lives on in one of them. A species that is left is a year older and
    /// has its identity, the genome of the first of its prepared organisms
    /// stands for it, and its books are those of its allotment; a species
    /// that an offspring has founded has an identity from the counter and no
    /// age. Identities that differed from one another and lay below the
    /// counter still do.
    pub fn epoch(&mut self, rng: &mut rand::StdRng)
        requires
            old(self).wf(),
            old(self).has_room(),
        ensures
            final(self).wf(),
            organism_count(final(self).species@, final(self).species@.len() as int)
                == organism_count(old(self).species@, old(self).species@.len() as int),
            final(self).generation == old(self).generation + 1,
            final(self).settings.compat_threshold == tuned_threshold(
                old(self).settings.compat_threshold,
                old(self).generation,
                old(self).species@.len() as int,
                old(self).settings.target_num_species,
            ),
            final(self).settings.survival_threshold == old(self).settings.survival_threshold,
            final(self).settings.dropoff_age == old(self).settings.dropoff_age,
            final(self).settings.target_num_species == old(self).settings.target_num_species,
            final(self).mutation_settings == old(self).mutation_settings,
            final(self).compat_coefficients == old(self).compat_coefficients,
            old(self).fitness_within(old(self).highest_fitness) ==> final(self).highest_fitness
                == old(self).highest_fitness && final(self).time_since_last_improvement == (if old(self).time_since_last_improvement + 1 >= old(self).settings.dropoff_age {
                0
            } else {
                old(self).time_since_last_improvement + 1
            }),
            !old(self).fitness_within(old(self).highest_fitness) ==> final(self).highest_fitness
                > old(self).highest_fitness && old(self).fitness_within(
                final(self).highest_fitness,
            ) && old(self).fitness_reached(final(self).highest_fitness) && final(self).time_since_last_improvement == 0,
            old(self).node_counter <= final(self).node_counter <= old(self).node_counter
                + organism_count(old(self).species@, old(self).species@.len() as int),
            old(self).innovation_counter <= final(self).innovation_counter <= old(self).innovation_counter + 2 * organism_count(
                old(self).species@,
                old(self).species@.len() as int,
            ),
            old(self).species_counter <= final(self).species_counter <= old(self).species_counter
                + organism_count(old(self).species@, old(self).species@.len() as int),
            forall|s: int, o: int|
                0 <= s < final(self).species@.len() && 0 <= o
                    < final(self).species@[s].organisms@.len() ==> is_fresh(
                    #[trigger] final(self).species@[s].organisms@[o],
                ),
            forall|k: int|
                0 <= k < final(self).species@.len() ==> continues_one(
                    old(self).species@,
                    old(self).settings.dropoff_age,
                    #[trigger] final(self).species@[k],
                ) || is_new_species(final(self).species@[k], old(self).species_counter),
            exists|parents: Seq<Species>, breeders: Seq<Species>| #[trigger]
                is_next_generation(
                    old(self).species@,
                    old(self).settings.dropoff_age,
                    old(self).settings.survival_threshold,
                    old(self).is_stagnant(),
                    &old(self).mutation_settings,
                    parents,
                    breeders,
                    final(self).species@,
                ),
            settled(
                final(self).species@,
                final(self).compat_coefficients,
                final(self).settings.compat_threshold,
            ),
            ids_in_order(old(self).species@, old(self).species_counter) ==> ids_in_order(
                final(self).species@,
                final(self).species_counter,
            ),
    {
        let ghost count = organism_count(self.species@, self.species@.len() as int);
        self.tune_threshold();
        self.note_progress();
        let ghost stagnant = self.time_since_last_improvement >= self.settings.dropoff_age;
        let (offspring, Ghost(prepared_species), Ghost(allotted)) = self.breed(rng);
        let ghost parents = self.species@;
        let ghost counter_start = self.species_counter;
        let (Ghost(cleared), Ghost(all)) = self.respeciate(offspring);
        proof {
            lemma_generation(
                old(self).species@,
                counter_start,
                old(self).settings.dropoff_age,
                stagnant,
                prepared_species,
                allotted,
                parents,
                cleared,
                offspring@,
                all,
                self.species_counter,
                self.compat_coefficients,
                self.settings.compat_threshold,
                self.species@,
                old(self).settings.survival_threshold,
                &self.mutation_settings,
            );
            assert(stagnant == old(self).is_stagnant());
            if self.species@.len() == 0 {
                assert(organism_count(self.species@, 0) == 0);
                lemma_counts_grow(old(self).species@, 1, old(self).species@.len() as int);
                assert(organism_count(old(self).species@, 0) == 0);
                assert(old(self).species@[0].organisms@.len() > 0);
            }
        }
        self.generation += 1;
        proof {
            assert(is_next_generation(
                old(self).species@,
                old(self).settings.dropoff_age,
                old(self).settings.survival_threshold,
                old(self).is_stagnant(),
                &old(self).mutation_settings,
                allotted,
                parents,
                self.species@,
            ));
        }
    }
}

} // verus!
