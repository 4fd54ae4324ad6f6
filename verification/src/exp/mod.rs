//! Experiments and the evaluation of a population: what an experiment has
//! to provide, the list of evaluation tasks and its division among workers,
//! and the recording of results.

pub mod pole;
pub mod roadgame;
pub mod tictactoe;

use crate::genes::{CompatCoefficients, Genome, NodeId};
use crate::nn::Network;
use crate::pop::{
    lemma_counts_not_negative, lemma_organism_count_same, organism_count,
    same_bookkeeping, Organism, Population, Settings, Species,
};
use std::collections::HashMap;
use vstd::prelude::*;

verus! {

/// What an experiment provides: the tunables, the genome that evolution
/// starts from, and the fitness of a network. Fitness is a fixed-point number
/// in millionths.
pub trait Experiment {
    /// The experiment can evaluate networks.
    spec fn ready(&self) -> bool;

    fn population_settings(&self) -> Settings;

    fn mutation_settings(&self) -> crate::mutation::Settings;

    fn compat_coefficients(&self) -> CompatCoefficients;

    fn initial_genome(&self) -> Genome;

    /// Names for nodes of the initial genome, for pictures of genomes.
    fn node_names(&self) -> HashMap<NodeId, String>;

    /// `fitness` is a fitness that the experiment may find for `network`
    /// among `all_phenotypes`.
    spec fn rates(&self, network: &Network, all_phenotypes: &Vec<Network>, fitness: u64) -> bool;

    /// `after` is what the experiment becomes when it is told that
    /// `population` is evaluated.
    spec fn learns(&self, population: &Population, after: &Self) -> bool;

    /// The fitness of `network`; `all_phenotypes` holds the networks of all
    /// organisms of the population, for experiments in which they compete.
    fn evaluate(&self, network: &mut Network, all_phenotypes: &Vec<Network>) -> (fitness: u64)
        requires
            self.ready(),
            old(network).wf(),
            forall|i: int| 0 <= i < all_phenotypes@.len() ==> (#[trigger] all_phenotypes@[i]).wf(),
        ensures
            self.rates(&*old(network), all_phenotypes, fitness),
    ;

    /// Called once after all organisms of a generation have their fitness.
    fn post_evaluation(&mut self, population: &Population)
        requires
            old(self).ready(),
            population.sound_species(),
        ensures
            final(self).ready(),
            old(self).learns(population, final(self)),
    ;
}

/// The two organisms agree in everything but their fitness.
pub open spec fn same_but_fitness(a: Organism, b: Organism) -> bool {
    &&& a.genome == b.genome
    &&& a.network == b.network
    &&& a.adj_fitness == b.adj_fitness
    &&& a.expected_offspring == b.expected_offspring
}

/// The two lists of species agree in everything but the fitness of their
/// organisms.
pub open spec fn same_but_fitnesses(a: Seq<Species>, b: Seq<Species>) -> bool {
    &&& a.len() == b.len()
    &&& forall|s: int|
        0 <= s < a.len() ==> same_bookkeeping(#[trigger] a[s], b[s]) && a[s].organisms@.len()
            == b[s].organisms@.len()
    &&& forall|s: int, o: int|
        0 <= s < a.len() && 0 <= o < a[s].organisms@.len() ==> same_but_fitness(
            #[trigger] a[s].organisms@[o],
            b[s].organisms@[o],
        )
}

/// The evaluation tasks of the species with the index `s`: one for each of
/// its `size` organisms, in order.
pub open spec fn species_tasks(s: int, size: int) -> Seq<(usize, usize)> {
    Seq::new(size as nat, |o: int| (s as usize, o as usize))
}

/// The evaluation tasks of the first `n` species: for each organism the
/// index of its species and its index within the species, species by
/// species.
pub open spec fn task_list(species: Seq<Species>, n: int) -> Seq<(usize, usize)>
    decreases n,
{
    if n <= 0 {
        Seq::empty()
    } else {
        task_list(species, n - 1) + species_tasks(n - 1, species[n - 1].organisms@.len() as int)
    }
}

/// The place in the task list of the organism `o` of the species `s`: the
/// number of organisms in the species before `s`, and `o`.
pub open spec fn task_place(species: Seq<Species>, s: int, o: int) -> int {
    organism_count(species, s) + o
}

/// No organism is left out of the task list and none occurs twice: the list
/// has one entry for each organism, and the entry at the place of an
/// organism names that organism.
pub proof fn lemma_tasks_cover(species: Seq<Species>, n: int)
    requires
        0 <= n <= species.len() <= usize::MAX,
    ensures
        task_list(species, n).len() == organism_count(species, n),
        forall|s: int, o: int|
            0 <= s < n && 0 <= o < species[s].organisms@.len() ==> 0 <= #[trigger] task_place(
                species,
                s,
                o,
            ) < task_list(species, n).len() && task_list(species, n)[task_place(species, s, o)]
                == (s as usize, o as usize),
        forall|k: int|
            0 <= k < task_list(species, n).len() ==> (#[trigger] task_list(species, n)[k]).0 < n
                && task_list(species, n)[k].1 < species[task_list(
                species,
                n,
            )[k].0 as int].organisms@.len() && task_place(
                species,
                task_list(species, n)[k].0 as int,
                task_list(species, n)[k].1 as int,
            ) == k,
    decreases n,
{
    if n > 0 {
        lemma_tasks_cover(species, n - 1);
        lemma_counts_not_negative(species, n - 1);
        let before = task_list(species, n - 1);
        let own = species_tasks(n - 1, species[n - 1].organisms@.len() as int);
        let all = task_list(species, n);
        assert forall|s: int, o: int|
            0 <= s < n && 0 <= o < species[s].organisms@.len() implies 0 <= #[trigger] task_place(
            species,
            s,
            o,
        ) < all.len() && all[task_place(species, s, o)] == (s as usize, o as usize) by {
            lemma_counts_not_negative(species, s);
            assert(species[s].organisms.len() == species[s].organisms@.len());
            let place = task_place(species, s, o);
            if s < n - 1 {
                assert(0 <= place < before.len());
                assert(before[place] == (s as usize, o as usize));
                assert(all[place] == before[place]);
            } else {
                assert(own[o] == (s as usize, o as usize));
                assert(all[place] == own[place - before.len()]);
            }
        }
        assert forall|k: int| 0 <= k < all.len() implies (#[trigger] all[k]).0 < n && all[k].1
            < species[all[k].0 as int].organisms@.len() && task_place(
            species,
            all[k].0 as int,
            all[k].1 as int,
        ) == k by {
            if k < before.len() {
                assert(all[k] == before[k]);
            } else {
                let o = k - before.len();
                assert(all[k] == own[o]);
                assert(own[o] == ((n - 1) as usize, o as usize));
                assert(species[n - 1].organisms.len() == species[n - 1].organisms@.len());
            }
        }
    }
}

/// The first task of the worker `worker` where `num_tasks` tasks are shared
/// among `num_workers` workers: each worker gets the quotient of the two
/// numbers, and the last one the remainder too.
pub open spec fn shard_start(num_tasks: int, num_workers: int, worker: int) -> int {
    if worker >= num_workers {
        num_tasks
    } else {
        (num_tasks / num_workers) * worker
    }
}

/// The shards follow one another from the first task to the last: the first
/// starts at zero, each ends where the next starts, and the last ends with
/// the tasks. So no task is left out and none is given to two workers.
pub proof fn lemma_shards_partition(num_tasks: int, num_workers: int, worker: int)
    requires
        0 <= num_tasks,
        0 < num_workers,
        0 <= worker < num_workers,
    ensures
        shard_start(num_tasks, num_workers, 0) == 0,
        shard_start(num_tasks, num_workers, num_workers) == num_tasks,
        0 <= shard_start(num_tasks, num_workers, worker) <= shard_start(
            num_tasks,
            num_workers,
            worker + 1,
        ) <= num_tasks,
{
    let per = num_tasks / num_workers;
    assert(0 <= per && per * num_workers <= num_tasks) by (nonlinear_arith)
        requires
            per == num_tasks / num_workers,
            0 <= num_tasks,
            0 < num_workers,
    ;
    assert(0 <= per * worker <= per * (worker + 1) && per * (worker + 1) <= per * num_workers)
        by (nonlinear_arith)
        requires
            0 <= per,
            0 <= worker < num_workers,
    ;
    assert(per * 0 == 0);
}

/// The tasks of one worker: from the first of the pair up to, but without,
/// the second.
pub fn shard_bounds(num_tasks: usize, num_workers: usize, worker: usize) -> (bounds: (usize, usize))
    requires
        0 < num_workers,
        worker < num_workers,
    ensures
        bounds.0 == shard_start(num_tasks as int, num_workers as int, worker as int),
        bounds.1 == shard_start(num_tasks as int, num_workers as int, worker + 1),
        bounds.0 <= bounds.1 <= num_tasks,
{
    proof {
        lemma_shards_partition(num_tasks as int, num_workers as int, worker as int);
    }
    let per = num_tasks / num_workers;
    let start = per * worker;
    let end = if worker == num_workers - 1 {
        num_tasks
    } else {
        per * (worker + 1)
    };
    (start, end)
}

/// The evaluation tasks of a population: for each organism the index of its
/// species and its index within the species.
pub fn evaluation_tasks(population: &Population) -> (tasks: Vec<(usize, usize)>)
    ensures
        tasks@ == task_list(population.species@, population.species@.len() as int),
{
    let mut tasks: Vec<(usize, usize)> = Vec::new();
    let mut s: usize = 0;
    while s < population.species.len()
        invariant
            s <= population.species@.len(),
            tasks@ == task_list(population.species@, s as int),
        decreases population.species@.len() - s,
    {
        let ghost before = tasks@;
        let size = population.species[s].organisms.len();
        let mut o: usize = 0;
        while o < size
            invariant
                o <= size,
                s < population.species@.len(),
                size == population.species@[s as int].organisms@.len(),
                tasks@ == before + species_tasks(s as int, o as int),
            decreases size - o,
        {
            tasks.push((s, o));
            assert(tasks@ =~= before + species_tasks(s as int, o + 1));
            o += 1;
        }
        s += 1;
    }
    tasks
}

/// Copies of the networks of all organisms, in the order of the evaluation
/// tasks.
pub fn collect_phenotypes(population: &Population) -> (phenotypes: Vec<Network>)
    ensures
        phenotypes@.len() == task_list(
            population.species@,
            population.species@.len() as int,
        ).len(),
        forall|k: int|
            0 <= k < phenotypes@.len() ==> {
                let task = task_list(population.species@, population.species@.len() as int)[k];
                let network = population.species@[task.0 as int].organisms@[task.1 as int].network;
                (#[trigger] phenotypes@[k])@ == network@ && phenotypes@[k].id_to_index@
                    == network.id_to_index@ && (network.wf() ==> phenotypes@[k].wf())
            },
{
    let tasks = evaluation_tasks(population);
    proof {
        assert(population.species.len() == population.species@.len());
        lemma_tasks_cover(population.species@, population.species@.len() as int);
    }
    let mut phenotypes: Vec<Network> = Vec::new();
    let mut k: usize = 0;
    while k < tasks.len()
        invariant
            k <= tasks@.len(),
            tasks@ == task_list(population.species@, population.species@.len() as int),
            forall|m: int|
                0 <= m < tasks@.len() ==> (#[trigger] tasks@[m]).0 < population.species@.len()
                    && tasks@[m].1 < population.species@[tasks@[m].0 as int].organisms@.len(),
            phenotypes@.len() == k,
            forall|m: int|
                0 <= m < k ==> {
                    let task = tasks@[m];
                    let network =
                        population.species@[task.0 as int].organisms@[task.1 as int].network;
                    (#[trigger] phenotypes@[m])@ == network@ && phenotypes@[m].id_to_index@
                        == network.id_to_index@ && (network.wf() ==> phenotypes@[m].wf())
                },
        decreases tasks@.len() - k,
    {
        let task = tasks[k];
        phenotypes.push(population.species[task.0].organisms[task.1].network.duplicate());
        k += 1;
    }
    phenotypes
}

/// Records the fitness of the organism `organism_index` of the species
/// `species_index`.
pub fn record_fitness(
    population: &mut Population,
    species_index: usize,
    organism_index: usize,
    fitness: u64,
)
    requires
        species_index < old(population).species@.len(),
        organism_index < old(population).species@[species_index as int].organisms@.len(),
    ensures
        same_but_fitnesses(final(population).species@, old(population).species@),
        final(population).species@[species_index as int].organisms@[organism_index as int].fitness
            == fitness,
        forall|s: int, o: int|
            0 <= s < old(population).species@.len() && 0 <= o < old(population).species@[s].organisms@.len() && !(s == species_index && o == organism_index) ==> (
            #[trigger] final(population).species@[s].organisms@[o]).fitness == old(population).species@[s].organisms@[o].fitness,
        final(population).same_tunables(old(population)),
        final(population).same_counters(old(population)),
        final(population).same_progress(old(population)),
{
    population.species[species_index].organisms[organism_index].fitness = fitness;
}

/// A change of fitness alone keeps a population sound and its size.
pub proof fn lemma_fitness_keeps_soundness(before: &Population, after: &Population)
    requires
        same_but_fitnesses(after.species@, before.species@),
        after.same_counters(before),
    ensures
        organism_count(after.species@, after.species@.len() as int) == organism_count(
            before.species@,
            before.species@.len() as int,
        ),
        before.sound_species() ==> after.sound_species(),
        before.wf() ==> after.wf(),
{
    lemma_organism_count_same(after.species@, before.species@, before.species@.len() as int);
    if before.sound_species() {
        assert forall|i: int| 0 <= i < after.species@.len() implies (
        #[trigger] after.species@[i]).wf() && after.species@[i].is_covered(
            after.node_counter,
            after.innovation_counter,
        ) by {
            assert(same_bookkeeping(after.species@[i], before.species@[i]));
            assert(before.species@[i].wf() && before.species@[i].is_covered(
                before.node_counter,
                before.innovation_counter,
            ));
            assert forall|k: int| 0 <= k < after.species@[i].organisms@.len() implies (
            #[trigger] after.species@[i].organisms@[k]).wf() && crate::mutation::counters_cover(
                after.node_counter,
                after.innovation_counter,
                &after.species@[i].organisms@[k].genome,
            ) by {
                assert(same_but_fitness(
                    after.species@[i].organisms@[k],
                    before.species@[i].organisms@[k],
                ));
                assert(before.species@[i].organisms@[k].wf());
            }
        }
    }
}

/// `copy` has the nodes, in their states, and the index of `network`.
pub open spec fn is_copy(copy: &Network, network: &Network) -> bool {
    copy@ == network@ && copy.id_to_index@ == network.id_to_index@
}

/// `phenotypes` holds a copy of the network of each organism, in the order
/// of the evaluation tasks.
pub open spec fn are_phenotypes(phenotypes: &Vec<Network>, species: Seq<Species>) -> bool {
    &&& phenotypes@.len() == task_list(species, species.len() as int).len()
    &&& forall|k: int|
        0 <= k < phenotypes@.len() ==> is_copy(
            #[trigger] &phenotypes@[k],
            &species[task_list(species, species.len() as int)[k].0 as int].organisms@[task_list(
                species,
                species.len() as int,
            )[k].1 as int].network,
        )
}

/// `fitness` is a fitness that the experiment may find for a copy of
/// `network` among `phenotypes`.
pub open spec fn rated_one<E: Experiment>(
    experiment: &E,
    phenotypes: &Vec<Network>,
    network: &Network,
    fitness: u64,
) -> bool {
    exists|copy: Network| is_copy(&copy, network) && #[trigger] experiment.rates(
        &copy,
        phenotypes,
        fitness,
    )
}

/// Every organism of `after` has a fitness that the experiment may find for
/// a copy of its network among copies of the networks of all organisms.
pub open spec fn rated<E: Experiment>(
    experiment: &E,
    before: Seq<Species>,
    after: Seq<Species>,
) -> bool {
    exists|phenotypes: Vec<Network>| #[trigger]
        are_phenotypes(&phenotypes, before) && forall|s: int, o: int|
            0 <= s < before.len() && 0 <= o < before[s].organisms@.len() ==> rated_one(
                experiment,
                &phenotypes,
                &before[s].organisms@[o].network,
                (#[trigger] after[s].organisms@[o]).fitness,
            )
}

/// Gives every organism the fitness that the experiment finds for a copy of
/// its network, one organism after the other.
pub fn evaluate_single_threaded<E: Experiment>(experiment: &E, population: &mut Population)
    requires
        experiment.ready(),
        old(population).sound_species(),
    ensures
        same_but_fitnesses(final(population).species@, old(population).species@),
        rated(experiment, old(population).species@, final(population).species@),
        final(population).same_tunables(old(population)),
        final(population).same_counters(old(population)),
        final(population).same_progress(old(population)),
        final(population).sound_species(),
        old(population).wf() ==> final(population).wf(),
{
    let phenotypes = collect_phenotypes(population);
    let tasks = evaluation_tasks(population);
    let ghost species0 = population.species@;
    proof {
        assert(population.species.len() == population.species@.len());
        lemma_tasks_cover(population.species@, population.species@.len() as int);
        assert forall|i: int| 0 <= i < phenotypes@.len() implies (#[trigger] phenotypes@[i]).wf() by {
            let task = tasks@[i];
            assert(population.species@[task.0 as int].wf());
            assert(population.species@[task.0 as int].organisms@[task.1 as int].wf());
        }
        assert(are_phenotypes(&phenotypes, species0));
    }
    let mut k: usize = 0;
    while k < tasks.len()
        invariant
            k <= tasks@.len(),
            species0 == old(population).species@,
            species0.len() <= usize::MAX,
            tasks@ == task_list(species0, species0.len() as int),
            forall|m: int|
                0 <= m < tasks@.len() ==> (#[trigger] tasks@[m]).0 < species0.len() && tasks@[m].1
                    < species0[tasks@[m].0 as int].organisms@.len() && task_place(
                    species0,
                    tasks@[m].0 as int,
                    tasks@[m].1 as int,
                ) == m,
            forall|i: int| 0 <= i < phenotypes@.len() ==> (#[trigger] phenotypes@[i]).wf(),
            experiment.ready(),
            old(population).sound_species(),
            same_but_fitnesses(population.species@, species0),
            population.same_tunables(old(population)),
            population.same_counters(old(population)),
            population.same_progress(old(population)),
            forall|m: int|
                0 <= m < k ==> rated_one(
                    experiment,
                    &phenotypes,
                    &species0[(#[trigger] tasks@[m]).0 as int].organisms@[tasks@[m].1 as int].network,
                    population.species@[tasks@[m].0 as int].organisms@[tasks@[m].1 as int].fitness,
                ),
        decreases tasks@.len() - k,
    {
        let task = tasks[k];
        let ghost before = *population;
        proof {
            lemma_fitness_keeps_soundness(old(population), population);
            assert(population.species@[task.0 as int].wf());
            assert(population.species@[task.0 as int].organisms@[task.1 as int].wf());
            assert(same_but_fitness(
                population.species@[task.0 as int].organisms@[task.1 as int],
                species0[task.0 as int].organisms@[task.1 as int],
            ));
        }
        let mut network = population.species[task.0].organisms[task.1].network.duplicate();
        let ghost handed = network;
        let fitness = experiment.evaluate(&mut network, &phenotypes);
        record_fitness(population, task.0, task.1, fitness);
        proof {
            assert(is_copy(&handed, &species0[task.0 as int].organisms@[task.1 as int].network));
            assert(experiment.rates(&handed, &phenotypes, fitness));
            assert forall|s: int, o: int|
                0 <= s < population.species@.len() && 0 <= o
                    < population.species@[s].organisms@.len() implies same_but_fitness(
                #[trigger] population.species@[s].organisms@[o],
                species0[s].organisms@[o],
            ) by {
                assert(same_but_fitness(
                    population.species@[s].organisms@[o],
                    before.species@[s].organisms@[o],
                ));
                assert(same_but_fitness(before.species@[s].organisms@[o], species0[s].organisms@[o]));
            }
            assert forall|s: int| 0 <= s < population.species@.len() implies same_bookkeeping(
                #[trigger] population.species@[s],
                species0[s],
            ) && population.species@[s].organisms@.len() == species0[s].organisms@.len() by {
                assert(same_bookkeeping(population.species@[s], before.species@[s]));
                assert(same_bookkeeping(before.species@[s], species0[s]));
            }
            assert forall|m: int| 0 <= m < k + 1 implies rated_one(
                experiment,
                &phenotypes,
                &species0[(#[trigger] tasks@[m]).0 as int].organisms@[tasks@[m].1 as int].network,
                population.species@[tasks@[m].0 as int].organisms@[tasks@[m].1 as int].fitness,
            ) by {
                let s = tasks@[m].0 as int;
                let o = tasks@[m].1 as int;
                if m < k {
                    assert(task_place(species0, s, o) == m);
                    assert(task_place(species0, task.0 as int, task.1 as int) == k);
                    assert(!(s == task.0 && o == task.1));
                    assert(population.species@[s].organisms@[o].fitness
                        == before.species@[s].organisms@[o].fitness);
                }
            }
        }
        k += 1;
    }
    proof {
        lemma_fitness_keeps_soundness(old(population), population);
        assert forall|s: int, o: int|
            0 <= s < species0.len() && 0 <= o < species0[s].organisms@.len() implies rated_one(
            experiment,
            &phenotypes,
            &species0[s].organisms@[o].network,
            (#[trigger] population.species@[s].organisms@[o]).fitness,
        ) by {
            let m = task_place(species0, s, o);
            assert(tasks@[m] == (s as usize, o as usize));
        }
        assert(are_phenotypes(&phenotypes, species0));
    }
}

/// Evaluates a population: every organism gets its fitness, and the
/// experiment is then told that the generation is evaluated.
pub fn evaluate<E: Experiment>(experiment: &mut E, population: &mut Population)
    requires
        old(experiment).ready(),
        old(population).sound_species(),
    ensures
        final(experiment).ready(),
        same_but_fitnesses(final(population).species@, old(population).species@),
        rated(&*old(experiment), old(population).species@, final(population).species@),
        old(experiment).learns(final(population), final(experiment)),
        final(population).same_tunables(old(population)),
        final(population).same_counters(old(population)),
        final(population).same_progress(old(population)),
        final(population).sound_species(),
        old(population).wf() ==> final(population).wf(),
{
    evaluate_single_threaded(experiment, population);
    experiment.post_evaluation(population);
}

} // verus!
