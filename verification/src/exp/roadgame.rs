//! The road game experiment: a player on a road of three lanes steers
//! clear of the objects that come down the road.

use crate::exp::Experiment;
use crate::fixed::ONE;
use crate::genes::{CompatCoefficients, Genome, NodeId};
use crate::nn::{
    flushed_node, genes_of, is_activated, lemma_output_count, outputs_upto, with_inputs, Network,
    NodeView,
};
use crate::pop::{
    lesser, standard_compat_coefficients, standard_settings, Population, Settings,
};
use crate::random::{chance, draw, seeded};
use std::collections::HashMap;
use vstd::prelude::*;
use vstd::string::*;

verus! {

broadcast use vstd::std_specs::hash::group_hash_axioms;

/// The number of lanes.
pub const ROAD_WIDTH: usize = 3;

/// The number of rows; the player is in row zero and objects come in at the
/// last row.
pub const ROAD_HEIGHT: usize = 4;

/// The number of inputs of a network that plays: one for each lane that the
/// player may be in, and one for each cell of the rows ahead.
pub const NUM_INPUTS: usize = 12;

/// The most steps of one run.
pub const MAX_STEPS: usize = 10000;

/// The number of runs of one evaluation.
pub const NUM_RUNS: usize = 500;

/// The seed of the generator that seeds the runs of an evaluation.
pub const RUN_SEED: usize = 1337;

/// The probability, in millionths, that an object comes in on a lane.
pub const SPAWN_PROB: u32 = 300_000;

/// The output, in millionths, beyond which the player moves.
pub const MOVE_THRESHOLD: i64 = 500_000;

/// The road game as an experiment; `squash` is the activation function of
/// the networks.
pub struct RoadGameExperiment<F: Fn(i64) -> i64> {
    pub squash: F,
}

/// The state of a game: where objects are, where the player is, how often
/// the player has been hit, and whether by the last step.
pub struct GameState {
    pub road: [[bool; 4]; 3],
    pub player_x: usize,
    pub hits: usize,
    pub hit_now: bool,
    pub rng: rand::StdRng,
}

/// A move of the player.
#[derive(Clone, Copy, PartialEq, Eq, Debug, Structural)]
pub enum MoveInput {
    Left,
    Right,
}

/// The lane of the player after a move: one lane to the side, unless the
/// player is at the edge.
pub open spec fn moved(player_x: usize, input: Option<MoveInput>) -> usize {
    match input {
        Some(MoveInput::Left) => if player_x > 0 {
            (player_x - 1) as usize
        } else {
            player_x
        },
        Some(MoveInput::Right) => if player_x < ROAD_WIDTH - 1 {
            (player_x + 1) as usize
        } else {
            player_x
        },
        None => player_x,
    }
}

/// One for an object and zero for none.
pub open spec fn object(there: bool) -> int {
    if there {
        1
    } else {
        0
    }
}

impl GameState {
    /// Whether an object is in lane `x` and row `y`.
    pub open spec fn at(&self, x: int, y: int) -> bool {
        self.road@[x]@[y]
    }

    /// The player is on the road.
    pub open spec fn wf(&self) -> bool {
        self.player_x < ROAD_WIDTH
    }

    /// The number of objects in the last row.
    pub open spec fn incoming(&self) -> int {
        object(self.at(0, 3)) + object(self.at(1, 3)) + object(self.at(2, 3))
    }

    /// The rows but the last are those of `other`.
    pub open spec fn same_rows_ahead(&self, other: &GameState) -> bool {
        forall|x: int, y: int| 0 <= x < 3 && 0 <= y < 3 ==> #[trigger] self.at(x, y) == other.at(x, y)
    }
}

/// The start of a game: an empty road, the player in the middle lane, and
/// a generator seeded with `seed`.
pub fn initial_state(seed: usize) -> (state: GameState)
    ensures
        forall|x: int, y: int| 0 <= x < 3 && 0 <= y < 4 ==> !#[trigger] state.at(x, y),
        state.player_x == 1,
        state.hits == 0,
        !state.hit_now,
        state.wf(),
{
    let empty_road = [false, false, false, false];
    GameState {
        road: [empty_road, empty_road, empty_road],
        player_x: 1,
        hits: 0,
        hit_now: false,
        rng: seeded(seed),
    }
}

impl GameState {
    /// Puts an object into lane `x` and row `y`, or takes it away.
    pub fn set(&mut self, x: usize, y: usize, value: bool)
        requires
            x < ROAD_WIDTH,
            y < ROAD_HEIGHT,
        ensures
            final(self).at(x as int, y as int) == value,
            forall|u: int, v: int|
                0 <= u < 3 && 0 <= v < 4 && !(u == x && v == y) ==> #[trigger] final(self).at(u, v)
                    == old(self).at(u, v),
            final(self).player_x == old(self).player_x,
            final(self).hits == old(self).hits,
            final(self).hit_now == old(self).hit_now,
    {
        self.road[x][y] = value;
    }

    /// Whether an object is in lane `x` and row `y`.
    pub fn get(&self, x: usize, y: usize) -> (there: bool)
        requires
            x < ROAD_WIDTH,
            y < ROAD_HEIGHT,
        ensures
            there == self.at(x as int, y as int),
    {
        self.road[x][y]
    }
}

/// The first part of a step: the player moves, every object comes one row
/// nearer, and the player is hit where an object arrives in the player's
/// lane.
pub fn advance(state: &mut GameState, input: Option<MoveInput>)
    requires
        old(state).wf(),
        old(state).hits < usize::MAX,
    ensures
        final(state).player_x == moved(old(state).player_x, input),
        forall|x: int, y: int|
            0 <= x < 3 && 0 <= y < 3 ==> #[trigger] final(state).at(x, y) == old(state).at(
                x,
                y + 1,
            ),
        forall|x: int| 0 <= x < 3 ==> #[trigger] final(state).at(x, 3) == old(state).at(x, 3),
        final(state).hit_now == old(state).at(final(state).player_x as int, 1),
        final(state).hits == old(state).hits + object(final(state).hit_now),
        final(state).wf(),
{
    match input {
        Some(MoveInput::Left) => {
            if state.player_x > 0 {
                state.player_x -= 1;
            }
        },
        Some(MoveInput::Right) => {
            if state.player_x < ROAD_WIDTH - 1 {
                state.player_x += 1;
            }
        },
        None => {},
    }
    let mut y: usize = 0;
    while y < ROAD_HEIGHT - 1
        invariant
            y <= ROAD_HEIGHT - 1,
            state.player_x == moved(old(state).player_x, input),
            state.hits == old(state).hits,
            forall|x: int, v: int|
                0 <= x < 3 && 0 <= v < y ==> #[trigger] state.at(x, v) == old(state).at(x, v + 1),
            forall|x: int, v: int|
                0 <= x < 3 && y <= v < 4 ==> #[trigger] state.at(x, v) == old(state).at(x, v),
        decreases ROAD_HEIGHT - 1 - y,
    {
        let mut x: usize = 0;
        while x < ROAD_WIDTH
            invariant
                x <= ROAD_WIDTH,
                y < ROAD_HEIGHT - 1,
                state.player_x == moved(old(state).player_x, input),
                state.hits == old(state).hits,
                forall|u: int, v: int|
                    0 <= u < 3 && 0 <= v < y ==> #[trigger] state.at(u, v) == old(state).at(
                        u,
                        v + 1,
                    ),
                forall|u: int| 0 <= u < x ==> #[trigger] state.at(u, y as int) == old(state).at(
                    u,
                    y + 1,
                ),
                forall|u: int| x <= u < 3 ==> #[trigger] state.at(u, y as int) == old(state).at(
                    u,
                    y as int,
                ),
                forall|u: int, v: int|
                    0 <= u < 3 && y < v < 4 ==> #[trigger] state.at(u, v) == old(state).at(u, v),
            decreases ROAD_WIDTH - x,
        {
            let next = state.get(x, y + 1);
            state.set(x, y, next);
            x += 1;
        }
        y += 1;
    }
    let ghost shifted = *state;
    if state.get(state.player_x, 0) {
        state.hits += 1;
        state.hit_now = true;
    } else {
        state.hit_now = false;
    }
    proof {
        assert forall|x: int, y: int| 0 <= x < 3 && 0 <= y < 4 implies #[trigger] state.at(x, y)
            == shifted.at(x, y) by {}
    }
}

/// The second part of a step: objects come in at the last row, each lane
/// with the same probability, but no more than two at once, none that would
/// make a wall of three in the middle lane, and no second one where the row
/// before holds two objects and differs from the new row.
pub fn spawn(state: &mut GameState)
    ensures
        final(state).same_rows_ahead(old(state)),
        final(state).incoming() <= 2,
        !(final(state).at(1, 1) && final(state).at(1, 2) && final(state).at(1, 3)),
        final(state).player_x == old(state).player_x,
        final(state).hits == old(state).hits,
        final(state).hit_now == old(state).hit_now,
{
    let mut num_new: usize = 0;
    let mut x: usize = 0;
    while x < ROAD_WIDTH
        invariant
            x <= ROAD_WIDTH,
            state.same_rows_ahead(old(state)),
            state.player_x == old(state).player_x,
            state.hits == old(state).hits,
            state.hit_now == old(state).hit_now,
            num_new <= 2,
            num_new == (if x > 0 {
                object(state.at(0, 3))
            } else {
                0
            }) + (if x > 1 {
                object(state.at(1, 3))
            } else {
                0
            }) + (if x > 2 {
                object(state.at(2, 3))
            } else {
                0
            }),
            x > 1 ==> !(state.at(1, 1) && state.at(1, 2) && state.at(1, 3)),
        decreases ROAD_WIDTH - x,
    {
        let ghost before = *state;
        let comes = chance(&mut state.rng, SPAWN_PROB);
        proof {
            assert forall|u: int, v: int| 0 <= u < 3 && 0 <= v < 4 implies #[trigger] state.at(u, v)
                == before.at(u, v) by {}
        }
        if comes && num_new < 2 {
            state.set(x, ROAD_HEIGHT - 1, true);
            num_new += 1;
            if x == 1 && state.get(1, 1) && state.get(1, 2) {
                state.set(x, ROAD_HEIGHT - 1, false);
                num_new -= 1;
            } else if num_new == 2 {
                let mut num_next_line: usize = 0;
                let mut one_different = false;
                let mut x2: usize = 0;
                while x2 < ROAD_WIDTH
                    invariant
                        x2 <= ROAD_WIDTH,
                        num_next_line <= x2,
                    decreases ROAD_WIDTH - x2,
                {
                    if state.get(x2, ROAD_HEIGHT - 2) {
                        num_next_line += 1;
                    }
                    if state.get(x2, ROAD_HEIGHT - 2) != state.get(x2, ROAD_HEIGHT - 1) {
                        one_different = true;
                    }
                    x2 += 1;
                }
                if num_next_line > 1 && one_different {
                    state.set(x, ROAD_HEIGHT - 1, false);
                    num_new -= 1;
                }
            }
        } else {
            state.set(x, ROAD_HEIGHT - 1, false);
        }
        x += 1;
    }
}

/// `after` is what a step with the move `input` may make of `before`: the
/// player has moved, every object has come one row nearer, the player is
/// hit where an object has arrived in the player's lane, and at most two
/// objects have come in, none of them to make a wall of three in the middle
/// lane.
#[verifier::opaque]
pub open spec fn is_step(before: &GameState, input: Option<MoveInput>, after: &GameState) -> bool {
    &&& after.player_x == moved(before.player_x, input)
    &&& forall|x: int, y: int|
        0 <= x < 3 && 0 <= y < 3 ==> #[trigger] after.at(x, y) == before.at(x, y + 1)
    &&& after.hit_now == before.at(after.player_x as int, 1)
    &&& after.hits == before.hits + object(after.hit_now)
    &&& after.incoming() <= 2
    &&& !(after.at(1, 1) && after.at(1, 2) && after.at(1, 3))
}

/// One step of the game: the player moves, the objects come nearer, and new
/// objects come in.
pub fn road_game_step(state: &mut GameState, input: Option<MoveInput>)
    requires
        old(state).wf(),
        old(state).hits < usize::MAX,
    ensures
        is_step(&*old(state), input, &*final(state)),
        final(state).player_x == moved(old(state).player_x, input),
        forall|x: int, y: int|
            0 <= x < 3 && 0 <= y < 3 ==> #[trigger] final(state).at(x, y) == old(state).at(
                x,
                y + 1,
            ),
        final(state).hit_now == old(state).at(final(state).player_x as int, 1),
        final(state).hits == old(state).hits + object(final(state).hit_now),
        final(state).incoming() <= 2,
        !(final(state).at(1, 1) && final(state).at(1, 2) && final(state).at(1, 3)),
        final(state).wf(),
{
    advance(state, input);
    let ghost middle = *state;
    spawn(state);
    proof {
        assert forall|x: int, y: int| 0 <= x < 3 && 0 <= y < 3 implies #[trigger] state.at(x, y)
            == old(state).at(x, y + 1) by {
            assert(state.at(x, y) == middle.at(x, y));
        }
        reveal(is_step);
    }
}

/// What a network sees of the input with the number `n`: the first three
/// tell where the player is, the further nine where objects are in the rows
/// ahead, row by row; one stands for yes and minus one for no.
pub open spec fn input_value(state: &GameState, n: int) -> i64 {
    let yes = if n < 3 {
        state.player_x == n
    } else {
        state.at((n - 3) % 3, 1 + (n - 3) / 3)
    };
    if yes {
        ONE
    } else {
        (-ONE) as i64
    }
}

/// The input of a network for a state of the game.
pub open spec fn road_input_of(state: &GameState) -> Seq<(NodeId, i64)> {
    Seq::new(12, |n: int| (n as usize, input_value(state, n)))
}

/// The input of a network for a state of the game.
pub fn road_input(state: &GameState) -> (input: Vec<(NodeId, i64)>)
    ensures
        input@ == road_input_of(state),
{
    let mut input: Vec<(NodeId, i64)> = Vec::new();
    let mut x: usize = 0;
    while x < ROAD_WIDTH
        invariant
            x <= ROAD_WIDTH,
            input@.len() == x,
            forall|n: int| 0 <= n < x ==> #[trigger] input@[n] == road_input_of(state)[n],
        decreases ROAD_WIDTH - x,
    {
        let value = if x == state.player_x {
            ONE
        } else {
            -ONE
        };
        input.push((x, value));
        x += 1;
    }
    let mut y: usize = 1;
    while y < ROAD_HEIGHT
        invariant
            1 <= y <= ROAD_HEIGHT,
            input@.len() == 3 * y,
            forall|n: int| 0 <= n < 3 * y ==> #[trigger] input@[n] == road_input_of(state)[n],
        decreases ROAD_HEIGHT - y,
    {
        let mut x: usize = 0;
        while x < ROAD_WIDTH
            invariant
                x <= ROAD_WIDTH,
                1 <= y < ROAD_HEIGHT,
                input@.len() == 3 * y + x,
                forall|n: int|
                    0 <= n < 3 * y + x ==> #[trigger] input@[n] == road_input_of(state)[n],
            decreases ROAD_WIDTH - x,
        {
            let value = if state.get(x, y) {
                ONE
            } else {
                -ONE
            };
            input.push((3 * y + x, value));
            x += 1;
        }
        y += 1;
    }
    assert(input@ =~= road_input_of(state));
    input
}

/// The move that an output calls for: to the right above a half, to the
/// left below minus a half, else none.
pub open spec fn decided(out_value: i64) -> Option<MoveInput> {
    if out_value > MOVE_THRESHOLD {
        Some(MoveInput::Right)
    } else if out_value < -MOVE_THRESHOLD {
        Some(MoveInput::Left)
    } else {
        None
    }
}

/// The move that an output calls for.
pub fn decide(out_value: i64) -> (input: Option<MoveInput>)
    ensures
        input == decided(out_value),
{
    if out_value > MOVE_THRESHOLD {
        Some(MoveInput::Right)
    } else if out_value < -MOVE_THRESHOLD {
        Some(MoveInput::Left)
    } else {
        None
    }
}

/// `after` is the network `before` once it has been shown `state`: the
/// input for the state has been written to its input nodes, and it has been
/// activated nine times.
#[verifier::opaque]
pub open spec fn is_shown<F: Fn(i64) -> i64>(
    before: Seq<NodeView>,
    index: Map<NodeId, usize>,
    state: &GameState,
    after: Seq<NodeView>,
    squash: F,
) -> bool {
    exists|rounds: Seq<Seq<NodeView>>| #[trigger]
        are_rounds(rounds, squash) && rounds.len() == 10 && rounds[0] == with_inputs(
            before,
            index,
            road_input_of(state),
            12,
        ) && rounds[9] == after
}

/// Each of the networks comes from the one before by one activation.
pub open spec fn are_rounds<F: Fn(i64) -> i64>(rounds: Seq<Seq<NodeView>>, squash: F) -> bool {
    forall|r: int|
        0 <= r < rounds.len() - 1 ==> is_activated(#[trigger] rounds[r], rounds[r + 1], squash)
}

/// Shows the state of the game to the network, activates the network nine
/// times, and returns the move that its first output calls for.
pub fn network_input<F: Fn(i64) -> i64>(
    state: &GameState,
    network: &mut Network,
    squash: &F,
) -> (input: Option<MoveInput>)
    requires
        old(network).wf(),
        old(network).has_ports(NUM_INPUTS, 1),
        forall|x: i64| call_requires(*squash, (x,)),
    ensures
        final(network).wf(),
        final(network).has_ports(NUM_INPUTS, 1),
        final(network).id_to_index@ == old(network).id_to_index@,
        genes_of(final(network)@) == genes_of(old(network)@),
        is_shown(old(network)@, old(network).id_to_index@, state, final(network)@, *squash),
        input == decided(outputs_upto(final(network)@, final(network)@.len() as int)[0].1),
{
    let input = road_input(state);
    proof {
        assert forall|k: int| 0 <= k < input@.len() implies network.id_to_index@.contains_key(
            (#[trigger] input@[k]).0,
        ) && network@[network.id_to_index@[input@[k].0] as int].gene.node_type
            == crate::genes::NodeType::Input by {
            let n = input@[k].0;
            assert(n == k as usize);
            assert(network.id_to_index@.contains_key(n));
            let at = network.id_to_index@[n] as int;
            assert(genes_of(network@)[at] == network@[at].gene);
        }
    }
    network.set_input(&input);
    let ghost mut rounds: Seq<Seq<NodeView>> = seq![network@];
    let mut round: usize = 0;
    while round < 9
        invariant
            round <= 9,
            network.wf(),
            network.id_to_index@ == old(network).id_to_index@,
            genes_of(network@) == genes_of(old(network)@),
            forall|x: i64| call_requires(*squash, (x,)),
            rounds.len() == round + 1,
            rounds[0] == with_inputs(
                old(network)@,
                old(network).id_to_index@,
                road_input_of(state),
                12,
            ),
            rounds[round as int] == network@,
            are_rounds(rounds, *squash),
        decreases 9 - round,
    {
        network.activate(squash);
        proof {
            let longer = rounds.push(network@);
            assert forall|r: int| 0 <= r < longer.len() - 1 implies is_activated(
                #[trigger] longer[r],
                longer[r + 1],
                *squash,
            ) by {
                if r < rounds.len() - 1 {
                    assert(longer[r] == rounds[r]);
                    assert(longer[r + 1] == rounds[r + 1]);
                    assert(is_activated(rounds[r], rounds[r + 1], *squash));
                }
            }
            rounds = longer;
        }
        round += 1;
    }
    let output = network.get_output();
    proof {
        lemma_output_count(network@, network@.len() as int);
        assert(network@.len() == genes_of(network@).len());
        assert(old(network)@.len() == genes_of(old(network)@).len());
        reveal(is_shown);
    }
    decide(output[0].1)
}

/// The fitness for `num_steps` steps in `num_runs` runs: the square of the
/// mean number of steps of a run, in millionths, and at most the largest
/// `u64`.
pub open spec fn fitness_of(num_steps: usize, num_runs: usize) -> int {
    let mean = (num_steps * ONE) / (num_runs as int);
    lesser((mean * mean) / (ONE as int), u64::MAX as int)
}

/// The fitness for `num_steps` steps in `num_runs` runs.
pub fn road_fitness(num_steps: usize, num_runs: usize) -> (fitness: u64)
    requires
        num_runs > 0,
        num_steps <= 0xffff_ffff,
    ensures
        fitness == fitness_of(num_steps, num_runs),
{
    assert(num_steps * ONE <= 0xffff_ffff * 1_000_000) by (nonlinear_arith)
        requires
            0 <= num_steps <= 0xffff_ffff,
            ONE == 1_000_000,
    ;
    let mean: u128 = (num_steps as u128 * ONE as u128) / (num_runs as u128);
    assert(mean <= num_steps * ONE) by (nonlinear_arith)
        requires
            mean == (num_steps * ONE) / (num_runs as int),
            num_runs >= 1,
            num_steps * ONE >= 0,
    ;
    assert(mean * mean <= 0xffff_ffff * 1_000_000 * (0xffff_ffff * 1_000_000)) by (nonlinear_arith)
        requires
            0 <= mean <= 0xffff_ffff * 1_000_000,
    ;
    let square: u128 = (mean * mean) / (ONE as u128);
    if square > u64::MAX as u128 {
        u64::MAX
    } else {
        square as u64
    }
}

/// The move that a network in the state `net` calls for: that of its first
/// output.
pub open spec fn move_of(net: Seq<NodeView>) -> Option<MoveInput> {
    decided(outputs_upto(net, net.len() as int)[0].1)
}

/// `states` and `nets` hold the course of a run: before each step the
/// network is shown the state of the game, and the step is made with the
/// move that the network then calls for; after no step but the last has the
/// player been hit.
pub open spec fn is_run<F: Fn(i64) -> i64>(
    states: Seq<GameState>,
    nets: Seq<Seq<NodeView>>,
    index: Map<NodeId, usize>,
    squash: F,
) -> bool {
    &&& states.len() >= 1
    &&& nets.len() == states.len()
    &&& forall|k: int| 0 <= k < states.len() - 1 ==> #[trigger] is_turn(states, nets, index, squash, k)
    &&& forall|k: int| 0 < k < states.len() - 1 ==> !(#[trigger] states[k]).hit_now
}

/// The step with the number `k` of a run: the network is shown the state of
/// the game, and the step is made with the move that it then calls for.
pub open spec fn is_turn<F: Fn(i64) -> i64>(
    states: Seq<GameState>,
    nets: Seq<Seq<NodeView>>,
    index: Map<NodeId, usize>,
    squash: F,
    k: int,
) -> bool {
    &&& is_shown(nets[k], index, &states[k], nets[k + 1], squash)
    &&& is_step(&states[k], move_of(nets[k + 1]), &states[k + 1])
}

/// A run goes on by one step, unless the player has been hit.
pub proof fn lemma_run_goes_on<F: Fn(i64) -> i64>(
    states: Seq<GameState>,
    nets: Seq<Seq<NodeView>>,
    index: Map<NodeId, usize>,
    squash: F,
    next_state: GameState,
    next_net: Seq<NodeView>,
)
    requires
        is_run(states, nets, index, squash),
        is_shown(nets.last(), index, &states.last(), next_net, squash),
        is_step(&states.last(), move_of(next_net), &next_state),
        states.len() > 1 ==> !states.last().hit_now,
    ensures
        is_run(states.push(next_state), nets.push(next_net), index, squash),
{
    let longer = states.push(next_state);
    let longer_nets = nets.push(next_net);
    assert forall|k: int| 0 <= k < longer.len() - 1 implies #[trigger] is_turn(
        longer,
        longer_nets,
        index,
        squash,
        k,
    ) by {
        if k < states.len() - 1 {
            assert(longer[k] == states[k]);
            assert(longer[k + 1] == states[k + 1]);
            assert(longer_nets[k] == nets[k]);
            assert(longer_nets[k + 1] == nets[k + 1]);
            assert(is_turn(states, nets, index, squash, k));
        } else {
            assert(longer[k] == states.last());
            assert(longer_nets[k] == nets.last());
            assert(longer[k + 1] == next_state);
            assert(longer_nets[k + 1] == next_net);
        }
    }
    assert forall|k: int| 0 < k < longer.len() - 1 implies !(#[trigger] longer[k]).hit_now by {
        assert(longer[k] == states[k]);
    }
}

/// Plays one run: from the given start until the player is hit, but
/// `max_steps` steps at most. The result is the number of steps made.
pub fn run_game<F: Fn(i64) -> i64>(
    state: &mut GameState,
    network: &mut Network,
    squash: &F,
    max_steps: usize,
) -> (steps: usize)
    requires
        old(state).wf(),
        old(state).hits + max_steps <= usize::MAX,
        old(network).wf(),
        old(network).has_ports(NUM_INPUTS, 1),
        forall|x: i64| call_requires(*squash, (x,)),
    ensures
        steps <= max_steps,
        max_steps > 0 ==> steps >= 1,
        steps < max_steps ==> final(state).hit_now,
        exists|states: Seq<GameState>, nets: Seq<Seq<NodeView>>|
            #[trigger] is_run(states, nets, old(network).id_to_index@, *squash) && states.len()
                == steps + 1 && states[0] == *old(state) && states[steps as int] == *final(state)
                && nets[0] == old(network)@ && nets[steps as int] == final(network)@,
        final(state).hits <= old(state).hits + steps,
        final(state).wf(),
        final(network).wf(),
        final(network).has_ports(NUM_INPUTS, 1),
        final(network).id_to_index@ == old(network).id_to_index@,
        genes_of(final(network)@) == genes_of(old(network)@),
{
    let mut steps: usize = 0;
    let mut hit = false;
    let ghost mut states: Seq<GameState> = seq![*state];
    let ghost mut nets: Seq<Seq<NodeView>> = seq![network@];
    while steps < max_steps && !hit
        invariant
            steps <= max_steps,
            states.len() == steps + 1,
            nets.len() == steps + 1,
            states[0] == *old(state),
            states.last() == *state,
            nets[0] == old(network)@,
            nets.last() == network@,
            is_run(states, nets, old(network).id_to_index@, *squash),
            !hit && steps >= 1 ==> !state.hit_now,
            state.wf(),
            state.hits <= old(state).hits + steps,
            old(state).hits + max_steps <= usize::MAX,
            hit ==> state.hit_now && steps >= 1,
            network.wf(),
            network.has_ports(NUM_INPUTS, 1),
            network.id_to_index@ == old(network).id_to_index@,
            genes_of(network@) == genes_of(old(network)@),
            forall|x: i64| call_requires(*squash, (x,)),
        decreases max_steps - steps, if hit { 0int } else { 1int },
    {
        let input = network_input(state, network, squash);
        road_game_step(state, input);
        proof {
            lemma_run_goes_on(
                states,
                nets,
                old(network).id_to_index@,
                *squash,
                *state,
                network@,
            );
            states = states.push(*state);
            nets = nets.push(network@);
        }
        steps += 1;
        if state.hit_now {
            hit = true;
        }
    }
    steps
}

/// The character that shows the cell in lane `x` and row `y`: the player,
/// hit or not, in the row of the player, and else an object or nothing.
pub open spec fn cell_mark(state: &GameState, x: int, y: int) -> char {
    if y == 0 && x == state.player_x {
        if state.hit_now {
            'H'
        } else {
            'X'
        }
    } else if state.at(x, y) {
        'o'
    } else {
        ' '
    }
}

/// The line of text that shows the row `y`.
pub open spec fn road_row_text(state: &GameState, y: int) -> Seq<char> {
    seq![cell_mark(state, 0, y), cell_mark(state, 1, y), cell_mark(state, 2, y), '\n']
}

/// The text that shows the road: its rows, the farthest first.
pub open spec fn road_text(state: &GameState) -> Seq<char> {
    road_row_text(state, 3) + road_row_text(state, 2) + road_row_text(state, 1) + road_row_text(
        state,
        0,
    )
}

/// The text that shows the road.
pub fn state_to_string(state: &GameState) -> (text: String)
    ensures
        text@ == road_text(state),
{
    proof {
        reveal_strlit("H");
        reveal_strlit("X");
        reveal_strlit("o");
        reveal_strlit(" ");
        reveal_strlit("\n");
    }
    let mut text = String::new();
    let mut row: usize = 0;
    while row < ROAD_HEIGHT
        invariant
            row <= ROAD_HEIGHT,
            "H"@ == seq!['H'],
            "X"@ == seq!['X'],
            "o"@ == seq!['o'],
            " "@ == seq![' '],
            "\n"@ == seq!['\n'],
            text@ == (if row == 0 {
                Seq::<char>::empty()
            } else if row == 1 {
                road_row_text(state, 3)
            } else if row == 2 {
                road_row_text(state, 3) + road_row_text(state, 2)
            } else if row == 3 {
                road_row_text(state, 3) + road_row_text(state, 2) + road_row_text(state, 1)
            } else {
                road_text(state)
            }),
        decreases ROAD_HEIGHT - row,
    {
        let y = ROAD_HEIGHT - 1 - row;
        let ghost before = text@;
        let mut x: usize = 0;
        while x < ROAD_WIDTH
            invariant
                x <= ROAD_WIDTH,
                y < ROAD_HEIGHT,
                "H"@ == seq!['H'],
                "X"@ == seq!['X'],
                "o"@ == seq!['o'],
                " "@ == seq![' '],
                text@ == before + road_row_text(state, y as int).take(x as int),
            decreases ROAD_WIDTH - x,
        {
            let shown = if y == 0 && x == state.player_x {
                if state.hit_now {
                    "H"
                } else {
                    "X"
                }
            } else if state.get(x, y) {
                "o"
            } else {
                " "
            };
            text.append(shown);
            assert(text@ =~= before + road_row_text(state, y as int).take(x + 1));
            x += 1;
        }
        text.append("\n");
        assert(text@ =~= before + road_row_text(state, y as int));
        row += 1;
    }
    text
}

/// The start of a game: an empty road, the player in the middle lane and
/// not hit yet.
pub open spec fn is_start(state: &GameState) -> bool {
    &&& forall|x: int, y: int| 0 <= x < 3 && 0 <= y < 4 ==> !#[trigger] state.at(x, y)
    &&& state.player_x == 1
    &&& state.hits == 0
    &&& !state.hit_now
}

/// A run of `steps` steps leads the network from `before` to `after`: the
/// network is brought to rest and plays from a start of the game until the
/// player is hit, but `max_steps` steps at most.
#[verifier::opaque]
pub open spec fn is_run_of<F: Fn(i64) -> i64>(
    before: Seq<NodeView>,
    index: Map<NodeId, usize>,
    squash: F,
    max_steps: usize,
    steps: usize,
    after: Seq<NodeView>,
) -> bool {
    &&& steps <= max_steps
    &&& max_steps > 0 ==> steps >= 1
    &&& exists|states: Seq<GameState>, nets: Seq<Seq<NodeView>>|
        (#[trigger] is_run(states, nets, index, squash)) && states.len() == steps + 1 && is_start(
            &states[0],
        ) && (steps < max_steps ==> states[steps as int].hit_now) && nets[0] == Seq::new(
            before.len(),
            |i: int| flushed_node(before[i]),
        ) && nets[steps as int] == after
}

/// The run with the number `r` of a course of runs: see [`is_run_of`].
pub open spec fn is_course_run<F: Fn(i64) -> i64>(
    nets: Seq<Seq<NodeView>>,
    lengths: Seq<usize>,
    index: Map<NodeId, usize>,
    squash: F,
    max_steps: usize,
    r: int,
) -> bool {
    is_run_of(nets[r], index, squash, max_steps, lengths[r], nets[r + 1])
}

/// A course of runs, one after the other: `lengths` holds the number of
/// steps of each, and `nets` the network before each run and after the
/// last.
#[verifier::opaque]
pub open spec fn is_course<F: Fn(i64) -> i64>(
    nets: Seq<Seq<NodeView>>,
    lengths: Seq<usize>,
    index: Map<NodeId, usize>,
    squash: F,
    max_steps: usize,
) -> bool {
    &&& nets.len() == lengths.len() + 1
    &&& forall|r: int|
        0 <= r < lengths.len() ==> #[trigger] is_course_run(
            nets,
            lengths,
            index,
            squash,
            max_steps,
            r,
        )
}

/// The steps of the first `n` runs together.
pub open spec fn steps_sum(lengths: Seq<usize>, n: int) -> int
    decreases n,
{
    if n <= 0 {
        0
    } else {
        steps_sum(lengths, n - 1) + lengths[n - 1]
    }
}

/// The steps of runs together depend only on the runs counted.
pub proof fn lemma_steps_sum_prefix(a: Seq<usize>, b: Seq<usize>, n: int)
    requires
        0 <= n <= a.len(),
        n <= b.len(),
        forall|k: int| 0 <= k < n ==> a[k] == b[k],
    ensures
        steps_sum(a, n) == steps_sum(b, n),
    decreases n,
{
    if n > 0 {
        lemma_steps_sum_prefix(a, b, n - 1);
    }
}

/// A course goes on by one more run.
pub proof fn lemma_course_goes_on<F: Fn(i64) -> i64>(
    nets: Seq<Seq<NodeView>>,
    lengths: Seq<usize>,
    index: Map<NodeId, usize>,
    squash: F,
    max_steps: usize,
    steps: usize,
    after: Seq<NodeView>,
)
    requires
        is_course(nets, lengths, index, squash, max_steps),
        is_run_of(nets.last(), index, squash, max_steps, steps, after),
    ensures
        is_course(nets.push(after), lengths.push(steps), index, squash, max_steps),
        steps_sum(lengths.push(steps), lengths.len() as int + 1) == steps_sum(
            lengths,
            lengths.len() as int,
        ) + steps,
{
    reveal(is_course);
    let longer = lengths.push(steps);
    let longer_nets = nets.push(after);
    assert forall|r: int| 0 <= r < longer.len() implies #[trigger] is_course_run(
        longer_nets,
        longer,
        index,
        squash,
        max_steps,
        r,
    ) by {
        if r < lengths.len() {
            assert(is_course_run(nets, lengths, index, squash, max_steps, r));
            assert(longer[r] == lengths[r]);
            assert(longer_nets[r] == nets[r] && longer_nets[r + 1] == nets[r + 1]);
        } else {
            assert(longer[r] == steps);
            assert(longer_nets[r] == nets.last() && longer_nets[r + 1] == after);
        }
    }
    lemma_steps_sum_prefix(lengths, longer, lengths.len() as int);
}

/// `fitness` is the fitness of the network for a course of `num_runs` runs
/// of at most `max_steps` steps, which leaves the network as `after`: zero
/// where the network lacks an input or the output, and else the fitness for
/// the steps of the runs together.
pub open spec fn is_course_fitness<F: Fn(i64) -> i64>(
    network: &Network,
    squash: F,
    num_runs: usize,
    max_steps: usize,
    fitness: u64,
    after: Seq<NodeView>,
) -> bool {
    if network.has_ports(NUM_INPUTS, 1) {
        exists|nets: Seq<Seq<NodeView>>, lengths: Seq<usize>, num_steps: usize|
            (#[trigger] is_course(nets, lengths, network.id_to_index@, squash, max_steps))
                && lengths.len() == num_runs && nets[0] == network@ && nets[num_runs as int]
                == after && num_steps == steps_sum(lengths, num_runs as int) && fitness
                == #[trigger] fitness_of(num_steps, num_runs)
    } else {
        fitness == 0 && after == network@
    }
}

/// `fitness` is a fitness that `network` may get for `num_runs` runs of at
/// most `max_steps` steps: zero where the network lacks an input or the
/// output, and else the fitness for some number of steps, of which each run
/// takes one at least and `max_steps` at most.
pub open spec fn is_road_fitness(
    network: &Network,
    num_runs: usize,
    max_steps: usize,
    fitness: u64,
) -> bool {
    if network.has_ports(NUM_INPUTS, 1) {
        exists|num_steps: usize|
            num_steps <= num_runs * max_steps && (max_steps > 0 ==> num_steps >= num_runs)
                && fitness == #[trigger] fitness_of(num_steps, num_runs)
    } else {
        fitness == 0
    }
}

impl<F: Fn(i64) -> i64> RoadGameExperiment<F> {
    /// The fitness of a network over `num_runs` runs of at most `max_steps`
    /// steps, each from a start that a generator with the seed `seed` seeds.
    /// A network that lacks an input or the output gets the fitness zero.
    pub fn evaluate_runs(
        &self,
        network: &mut Network,
        seed: usize,
        num_runs: usize,
        max_steps: usize,
    ) -> (fitness: u64)
        requires
            forall|x: i64| call_requires(self.squash, (x,)),
            old(network).wf(),
            num_runs > 0,
            num_runs * max_steps <= 0xffff_ffff,
        ensures
            final(network).wf(),
            final(network).id_to_index@ == old(network).id_to_index@,
            genes_of(final(network)@) == genes_of(old(network)@),
            is_road_fitness(&*old(network), num_runs, max_steps, fitness),
            is_course_fitness(
                &*old(network),
                self.squash,
                num_runs,
                max_steps,
                fitness,
                final(network)@,
            ),
    {
        if !network.check_ports(NUM_INPUTS, 1) {
            return 0;
        }
        let mut num_steps: usize = 0;
        let mut rng = seeded(seed);
        let mut run: usize = 0;
        let ghost mut nets: Seq<Seq<NodeView>> = seq![network@];
        let ghost mut lengths: Seq<usize> = Seq::empty();
        proof {
            reveal(is_course);
        }
        assert(num_runs * max_steps >= max_steps) by (nonlinear_arith)
            requires
                num_runs >= 1,
                max_steps >= 0,
        ;
        while run < num_runs
            invariant
                run <= num_runs,
                num_runs * max_steps <= 0xffff_ffff,
                max_steps <= 0xffff_ffff,
                num_steps <= run * max_steps,
                max_steps > 0 ==> num_steps >= run,
                forall|x: i64| call_requires(self.squash, (x,)),
                network.wf(),
                network.has_ports(NUM_INPUTS, 1),
                network.id_to_index@ == old(network).id_to_index@,
                genes_of(network@) == genes_of(old(network)@),
                is_course(nets, lengths, old(network).id_to_index@, self.squash, max_steps),
                lengths.len() == run,
                nets.len() == run + 1,
                nets[0] == old(network)@,
                nets.last() == network@,
                num_steps == steps_sum(lengths, run as int),
            decreases num_runs - run,
        {
            let ghost before = network@;
            let mut state = initial_state(draw(&mut rng));
            network.flush();
            proof {
                assert((run + 1) * max_steps == run * max_steps + max_steps) by (nonlinear_arith);
                assert((run + 1) * max_steps <= num_runs * max_steps) by (nonlinear_arith)
                    requires
                        run + 1 <= num_runs,
                        max_steps >= 0,
                ;
            }
            let ghost start = state;
            let steps = run_game(&mut state, network, &self.squash, max_steps);
            proof {
                reveal(is_run_of);
                assert(is_start(&start));
                assert(is_run_of(
                    before,
                    old(network).id_to_index@,
                    self.squash,
                    max_steps,
                    steps,
                    network@,
                ));
                lemma_course_goes_on(
                    nets,
                    lengths,
                    old(network).id_to_index@,
                    self.squash,
                    max_steps,
                    steps,
                    network@,
                );
                nets = nets.push(network@);
                lengths = lengths.push(steps);
            }
            num_steps += steps;
            run += 1;
        }
        proof {
            assert(num_steps <= num_runs * max_steps) by (nonlinear_arith)
                requires
                    num_steps <= run * max_steps,
                    run <= num_runs,
                    max_steps >= 0,
            ;
        }
        road_fitness(num_steps, num_runs)
    }
}

/// The name of a node of the initial genome: `P` and the lane for the
/// inputs that tell where the player is, the lane and the row for the
/// inputs that tell where objects are, `B` for the bias node and `O` for
/// the output node.
pub open spec fn road_node_name(id: int) -> Seq<char> {
    if id == 0 {
        "P0"@
    } else if id == 1 {
        "P1"@
    } else if id == 2 {
        "P2"@
    } else if id == 3 {
        "01"@
    } else if id == 4 {
        "11"@
    } else if id == 5 {
        "21"@
    } else if id == 6 {
        "02"@
    } else if id == 7 {
        "12"@
    } else if id == 8 {
        "22"@
    } else if id == 9 {
        "03"@
    } else if id == 10 {
        "13"@
    } else if id == 11 {
        "23"@
    } else if id == 12 {
        "B"@
    } else {
        "O"@
    }
}

impl<F: Fn(i64) -> i64> Experiment for RoadGameExperiment<F> {
    open spec fn ready(&self) -> bool {
        forall|x: i64| call_requires(self.squash, (x,))
    }

    open spec fn rates(&self, network: &Network, all_phenotypes: &Vec<Network>, fitness: u64) -> bool {
        &&& is_road_fitness(network, NUM_RUNS, MAX_STEPS, fitness)
        &&& exists|after: Seq<NodeView>| #[trigger]
            is_course_fitness(network, self.squash, NUM_RUNS, MAX_STEPS, fitness, after)
    }

    open spec fn learns(&self, population: &Population, after: &Self) -> bool {
        after.squash == self.squash
    }

    fn population_settings(&self) -> (settings: Settings)
        ensures
            settings == crate::pop::default_settings(),
    {
        standard_settings()
    }

    fn mutation_settings(&self) -> (settings: crate::mutation::Settings)
        ensures
            settings == crate::mutation::default_settings(),
    {
        crate::mutation::standard_settings()
    }

    fn compat_coefficients(&self) -> (c: CompatCoefficients)
        ensures
            c == crate::pop::default_compat_coefficients(),
    {
        standard_compat_coefficients()
    }

    fn initial_genome(&self) -> (genome: Genome)
        ensures
            genome.wf(),
            genome.nodes@.len() == 14,
    {
        Genome::initial_genome(ROAD_WIDTH * ROAD_HEIGHT, 1, 0, true)
    }

    fn node_names(&self) -> (names: HashMap<NodeId, String>)
        ensures
            forall|id: NodeId| names@.contains_key(id) <==> id < 14,
            forall|id: NodeId| id < 14 ==> (#[trigger] names@[id])@ == road_node_name(id as int),
    {
        let mut names: HashMap<NodeId, String> = HashMap::new();
        names.insert(0, String::from_str("P0"));
        names.insert(1, String::from_str("P1"));
        names.insert(2, String::from_str("P2"));
        names.insert(3, String::from_str("01"));
        names.insert(4, String::from_str("11"));
        names.insert(5, String::from_str("21"));
        names.insert(6, String::from_str("02"));
        names.insert(7, String::from_str("12"));
        names.insert(8, String::from_str("22"));
        names.insert(9, String::from_str("03"));
        names.insert(10, String::from_str("13"));
        names.insert(11, String::from_str("23"));
        names.insert(12, String::from_str("B"));
        names.insert(13, String::from_str("O"));
        names
    }

    fn evaluate(&self, network: &mut Network, all_phenotypes: &Vec<Network>) -> (fitness: u64)
        ensures
            final(network).wf(),
            final(network).id_to_index@ == old(network).id_to_index@,
            genes_of(final(network)@) == genes_of(old(network)@),
    {
        self.evaluate_runs(network, RUN_SEED, NUM_RUNS, MAX_STEPS)
    }

    fn post_evaluation(&mut self, population: &Population) {
    }
}

} // verus!
