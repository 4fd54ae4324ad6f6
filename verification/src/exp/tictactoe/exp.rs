//! The strategy of a network, and the scoring of networks against
//! strategies.

use crate::exp::tictactoe::game::{
    is_result, is_some_outcome, other, GameState, Player, Strategy,
};
use crate::exp::Experiment;
use crate::genes::{CompatCoefficients, Genome};
use crate::pop::{standard_compat_coefficients, standard_settings, Population, Settings};
use crate::fixed::ONE;
use crate::genes::{NodeId, NodeType};
use crate::nn::{
    flushed_node, genes_of, is_activated, lemma_output_count, outputs_upto, with_inputs, Network,
    NodeView,
};
use std::collections::HashMap;
use vstd::prelude::*;
use vstd::string::*;

verus! {

broadcast use vstd::std_specs::hash::group_hash_axioms;

/// The number of times that a network is activated for one move.
pub const ACTIVATIONS_PER_MOVE: usize = 9;

/// Plays as a network says: the cells of the board are its inputs, and it
/// takes the free cell whose output is highest.
pub struct NetworkStrategy<F: Fn(i64) -> i64> {
    pub network: Network,
    pub squash: F,
}

/// What a network sees in a cell: one for a cell of the player, minus one
/// for a cell of the other player, zero for a free cell.
pub open spec fn cell_value(cell: Option<Player>, me: Player) -> i64 {
    match cell {
        Some(player) => if player == me {
            ONE
        } else {
            (-ONE) as i64
        },
        None => 0,
    }
}

/// The cell with the number `n`, the cells counted column by column.
pub open spec fn numbered_cell(state: GameState, n: int) -> Option<Player> {
    state.cell(n / 3, n % 3)
}

/// The input of a network for a board: the cells column by column, each
/// with its number as the identity of its input node.
pub open spec fn board_input_of(state: GameState, me: Player) -> Seq<(NodeId, i64)> {
    Seq::new(9, |n: int| (n as usize, cell_value(numbered_cell(state, n), me)))
}

/// The input of a network for a board.
pub fn board_input(me: Player, state: &GameState) -> (input: Vec<(NodeId, i64)>)
    ensures
        input@ == board_input_of(*state, me),
{
    let mut input: Vec<(NodeId, i64)> = Vec::new();
    let mut x: usize = 0;
    while x < 3
        invariant
            x <= 3,
            input@.len() == 3 * x,
            forall|n: int| 0 <= n < 3 * x ==> #[trigger] input@[n] == board_input_of(*state, me)[n],
        decreases 3 - x,
    {
        let mut y: usize = 0;
        while y < 3
            invariant
                y <= 3,
                x < 3,
                input@.len() == 3 * x + y,
                forall|n: int|
                    0 <= n < 3 * x + y ==> #[trigger] input@[n] == board_input_of(*state, me)[n],
            decreases 3 - y,
        {
            let value = match state.get(x, y) {
                Some(Player::X) => match me {
                    Player::X => ONE,
                    Player::O => -ONE,
                },
                Some(Player::O) => match me {
                    Player::X => -ONE,
                    Player::O => ONE,
                },
                None => 0,
            };
            input.push((3 * x + y, value));
            y += 1;
        }
        x += 1;
    }
    assert(input@ =~= board_input_of(*state, me));
    input
}

/// The cell `(x, y)` is free and its output is the highest among the free
/// cells, and higher than that of any free cell before it.
pub open spec fn is_best_move(state: GameState, output: Seq<(NodeId, i64)>, x: int, y: int) -> bool {
    &&& 0 <= x < 3
    &&& 0 <= y < 3
    &&& state.cell(x, y) is None
    &&& forall|n: int|
        0 <= n < 9 && numbered_cell(state, n) is None ==> (#[trigger] output[n]).1 <= output[3 * x
            + y].1 && (n < 3 * x + y ==> output[n].1 < output[3 * x + y].1)
}

/// The free cell with the highest output; of several, the first, column by
/// column. Nothing where no cell is free.
pub fn best_legal_move(state: &GameState, output: &Vec<(NodeId, i64)>) -> (best: Option<
    (usize, usize),
>)
    requires
        output@.len() >= 9,
    ensures
        match best {
            Some(position) => is_best_move(
                *state,
                output@,
                position.0 as int,
                position.1 as int,
            ),
            None => !state.has_free_cell(),
        },
{
    let mut highest_move: Option<(usize, usize)> = None;
    let mut highest_activation: i64 = 0;
    let mut n: usize = 0;
    while n < 9
        invariant
            n <= 9,
            output@.len() >= 9,
            match highest_move {
                Some(position) => position.0 < 3 && position.1 < 3 && 3 * position.0 + position.1
                    < n && state.cell(position.0 as int, position.1 as int) is None
                    && highest_activation == output@[3 * position.0 + position.1].1 && forall|
                    m: int,
                |
                    0 <= m < n && numbered_cell(*state, m) is None ==> (#[trigger] output@[m]).1
                        <= highest_activation && (m < 3 * position.0 + position.1 ==> output@[m].1
                        < highest_activation),
                None => forall|m: int| 0 <= m < n ==> #[trigger] numbered_cell(*state, m) is Some,
            },
        decreases 9 - n,
    {
        let x = n / 3;
        let y = n % 3;
        if state.get(x, y).is_none() {
            if highest_move.is_none() || output[n].1 > highest_activation {
                highest_move = Some((x, y));
                highest_activation = output[n].1;
            }
        }
        n += 1;
    }
    proof {
        if highest_move is None {
            assert forall|x: int, y: int| 0 <= x < 3 && 0 <= y < 3 implies !(#[trigger] state.cell(
                x,
                y,
            ) is None) by {
                let m = 3 * x + y;
                assert(m / 3 == x && m % 3 == y);
                assert(numbered_cell(*state, m) is Some);
            }
        }
    }
    highest_move
}

/// The network has an input node for each cell, with the cell's number as
/// its identity, and at least nine output nodes.
pub open spec fn suits_board(network: &Network) -> bool {
    network.has_ports(9, 9)
}

/// Whether the network can play: see [`suits_board`].
pub fn is_board_network(network: &Network) -> (ok: bool)
    requires
        network.wf(),
    ensures
        ok == suits_board(network),
{
    network.check_ports(9, 9)
}

impl<F: Fn(i64) -> i64> NetworkStrategy<F> {
    /// The network is sound, has an input node for each cell, with the
    /// cell's number as its identity, and at least nine output nodes; the
    /// activation function takes every input sum.
    pub open spec fn fits_board(&self) -> bool {
        &&& self.network.wf()
        &&& forall|x: i64| call_requires(self.squash, (x,))
        &&& suits_board(&self.network)
    }
}

/// The stage `k + 1` is what one activation makes of the stage `k`.
pub open spec fn is_round<F: Fn(i64) -> i64>(
    stages: Seq<Seq<NodeView>>,
    k: int,
    squash: F,
) -> bool {
    is_activated(stages[k], stages[k + 1], squash)
}

/// Each stage is what one activation makes of the stage before it.
pub open spec fn are_activations<F: Fn(i64) -> i64>(stages: Seq<Seq<NodeView>>, squash: F) -> bool {
    forall|k: int| 0 <= k < stages.len() - 1 ==> #[trigger] is_round(stages, k, squash)
}

/// `after` is what `rounds` activations in a row make of the network
/// `before`.
#[verifier::opaque]
pub open spec fn activated_times<F: Fn(i64) -> i64>(
    before: Seq<NodeView>,
    after: Seq<NodeView>,
    squash: F,
    rounds: nat,
) -> bool {
    exists|stages: Seq<Seq<NodeView>>|
        (#[trigger] are_activations(stages, squash)) && stages.len() == rounds + 1 && stages[0]
            == before && stages[rounds as int] == after
}

/// One more activation after `rounds` activations makes `rounds + 1`.
pub proof fn lemma_activated_once_more<F: Fn(i64) -> i64>(
    before: Seq<NodeView>,
    middle: Seq<NodeView>,
    after: Seq<NodeView>,
    squash: F,
    rounds: nat,
)
    requires
        activated_times(before, middle, squash, rounds),
        is_activated(middle, after, squash),
    ensures
        activated_times(before, after, squash, (rounds + 1) as nat),
{
    reveal(activated_times);
    let stages = choose|stages: Seq<Seq<NodeView>>|
        (#[trigger] are_activations(stages, squash)) && stages.len() == rounds + 1 && stages[0]
            == before && stages[rounds as int] == middle;
    let longer = stages.push(after);
    assert forall|k: int| 0 <= k < longer.len() - 1 implies #[trigger] is_round(
        longer,
        k,
        squash,
    ) by {
        if k < stages.len() - 1 {
            assert(is_round(stages, k, squash));
            assert(longer[k] == stages[k] && longer[k + 1] == stages[k + 1]);
        } else {
            assert(longer[k] == middle && longer[k + 1] == after);
        }
    }
    assert(are_activations(longer, squash));
    assert(longer[0] == before && longer[(rounds + 1) as int] == after);
}

/// The network at rest that is shown the board: every node in its rest
/// state, then the input nodes with the values of the cells.
pub open spec fn shown_board(
    net: Seq<NodeView>,
    index: Map<NodeId, usize>,
    state: GameState,
    me: Player,
) -> Seq<NodeView> {
    with_inputs(
        Seq::new(net.len(), |i: int| flushed_node(net[i])),
        index,
        board_input_of(state, me),
        9,
    )
}

impl<F: Fn(i64) -> i64> Strategy for NetworkStrategy<F> {
    open spec fn ready(&self) -> bool {
        self.fits_board()
    }

    open spec fn chooses(
        &self,
        me: Player,
        state: &GameState,
        position: (usize, usize),
        after: &Self,
    ) -> bool {
        &&& is_best_move(
            *state,
            outputs_upto(after.network@, after.network@.len() as int),
            position.0 as int,
            position.1 as int,
        )
        &&& after.network.id_to_index@ == self.network.id_to_index@
        &&& genes_of(after.network@) == genes_of(self.network@)
        &&& after.squash == self.squash
        &&& activated_times(
            shown_board(self.network@, self.network.id_to_index@, *state, me),
            after.network@,
            self.squash,
            ACTIVATIONS_PER_MOVE as nat,
        )
    }

    fn get_move(&mut self, me: Player, state: &GameState) -> (position: (usize, usize))
        ensures
            is_best_move(
                *state,
                outputs_upto(final(self).network@, final(self).network@.len() as int),
                position.0 as int,
                position.1 as int,
            ),
            final(self).network.id_to_index@ == old(self).network.id_to_index@,
            genes_of(final(self).network@) == genes_of(old(self).network@),
            final(self).squash == old(self).squash,
            activated_times(
                shown_board(old(self).network@, old(self).network.id_to_index@, *state, me),
                final(self).network@,
                old(self).squash,
                ACTIVATIONS_PER_MOVE as nat,
            ),
    {
        let input = board_input(me, state);
        self.network.flush();
        proof {
            assert forall|k: int| 0 <= k < input@.len() implies self.network.id_to_index@.contains_key(
                (#[trigger] input@[k]).0,
            ) && self.network@[self.network.id_to_index@[input@[k].0] as int].gene.node_type
                == NodeType::Input by {
                let n = input@[k].0;
                assert(n == k as usize);
                assert(self.network.id_to_index@.contains_key(n));
                let at = self.network.id_to_index@[n] as int;
                assert(genes_of(self.network@)[at] == self.network@[at].gene);
            }
        }
        self.network.set_input(&input);
        let ghost shown = self.network@;
        proof {
            reveal(activated_times);
            assert(shown == shown_board(
                old(self).network@,
                old(self).network.id_to_index@,
                *state,
                me,
            ));
            assert(are_activations(seq![shown], self.squash));
            assert(seq![shown][0] == shown);
            assert(activated_times(shown, shown, self.squash, 0));
        }
        let mut round: usize = 0;
        while round < ACTIVATIONS_PER_MOVE
            invariant
                round <= ACTIVATIONS_PER_MOVE,
                activated_times(shown, self.network@, self.squash, round as nat),
                self.network.wf(),
                self.network.id_to_index@ == old(self).network.id_to_index@,
                genes_of(self.network@) == genes_of(old(self).network@),
                self.squash == old(self).squash,
                forall|x: i64| call_requires(self.squash, (x,)),
            decreases ACTIVATIONS_PER_MOVE - round,
        {
            let ghost middle = self.network@;
            self.network.activate(&self.squash);
            proof {
                lemma_activated_once_more(
                    shown,
                    middle,
                    self.network@,
                    self.squash,
                    round as nat,
                );
            }
            round += 1;
        }
        let output = self.network.get_output();
        proof {
            lemma_output_count(self.network@, self.network@.len() as int);
            assert(self.network@.len() == genes_of(self.network@).len());
            assert(old(self).network@.len() == genes_of(old(self).network@).len());
        }
        match best_legal_move(state, &output) {
            Some(position) => position,
            None => (0, 0),
        }
    }
}

/// The score of one game for the player: ten for a win, one for a draw,
/// nothing for a loss.
pub open spec fn game_score(winner: Option<Player>, player: Player) -> int {
    match winner {
        Some(who) => if who == player {
            10
        } else {
            0
        },
        None => 1,
    }
}

/// The score of one game for the player.
pub fn score_game(winner: Option<Player>, player: Player) -> (score: u64)
    ensures
        score == game_score(winner, player),
{
    match winner {
        Some(Player::X) => match player {
            Player::X => 10,
            Player::O => 0,
        },
        Some(Player::O) => match player {
            Player::X => 0,
            Player::O => 10,
        },
        None => 1,
    }
}

/// `winner` is the outcome of a game that the network has played as the
/// player `side` against the strategy `other`; the two were `network_after`
/// and `other_after` at its end.
pub open spec fn sided_result<F: Fn(i64) -> i64, S: Strategy>(
    side: Player,
    network: NetworkStrategy<F>,
    other: S,
    winner: Option<Player>,
    network_after: NetworkStrategy<F>,
    other_after: S,
) -> bool {
    match side {
        Player::X => is_result(network, other, winner, network_after, other_after),
        Player::O => is_result(other, network, winner, other_after, network_after),
    }
}

/// Lets the network play a game as the given player against a strategy.
pub fn play<F: Fn(i64) -> i64, S: Strategy>(
    network_strategy: &mut NetworkStrategy<F>,
    network_player: Player,
    strategy: &mut S,
) -> (winner: Option<Player>)
    requires
        old(network_strategy).ready(),
        old(strategy).ready(),
    ensures
        final(network_strategy).ready(),
        final(strategy).ready(),
        is_some_outcome(winner),
        sided_result(
            network_player,
            *old(network_strategy),
            *old(strategy),
            winner,
            *final(network_strategy),
            *final(strategy),
        ),
{
    match network_player {
        Player::X => crate::exp::tictactoe::game::play(network_strategy, strategy),
        Player::O => crate::exp::tictactoe::game::play(strategy, network_strategy),
    }
}

/// The player who begins the game with the number `game` of a series in
/// which the two players take turns to begin.
pub open spec fn side_in(game: int) -> Player {
    if game % 2 == 0 {
        Player::X
    } else {
        Player::O
    }
}

/// The score of the player who takes the sides in turn, over the first `n`
/// games with the given winners.
pub open spec fn series_score(winners: Seq<Option<Player>>, n: int) -> int
    decreases n,
{
    if n <= 0 {
        0
    } else {
        series_score(winners, n - 1) + game_score(winners[n - 1], side_in(n - 1))
    }
}

/// Each of the winners is the outcome of a game.
pub open spec fn are_outcomes(winners: Seq<Option<Player>>) -> bool {
    forall|k: int| 0 <= k < winners.len() ==> is_some_outcome(#[trigger] winners[k])
}

/// The score of a series depends only on the games counted.
pub proof fn lemma_series_score_prefix(a: Seq<Option<Player>>, b: Seq<Option<Player>>, n: int)
    requires
        0 <= n <= a.len(),
        n <= b.len(),
        forall|k: int| 0 <= k < n ==> a[k] == b[k],
    ensures
        series_score(a, n) == series_score(b, n),
        0 <= series_score(a, n) <= 10 * n,
    decreases n,
{
    if n > 0 {
        lemma_series_score_prefix(a, b, n - 1);
    }
}

/// The game with the number `game` of a series was played by the network
/// and the strategy as they were after the games before it; `networks` and
/// `others` hold the two as they were before each game and after the last.
pub open spec fn is_series_game<F: Fn(i64) -> i64, S: Strategy>(
    networks: Seq<NetworkStrategy<F>>,
    others: Seq<S>,
    winners: Seq<Option<Player>>,
    game: int,
) -> bool {
    sided_result(
        side_in(game),
        networks[game],
        others[game],
        winners[game],
        networks[game + 1],
        others[game + 1],
    )
}

/// The winners are the outcomes of the games of a series in which the
/// network and the strategy took turns to begin, the network first.
#[verifier::opaque]
pub open spec fn is_series<F: Fn(i64) -> i64, S: Strategy>(
    networks: Seq<NetworkStrategy<F>>,
    others: Seq<S>,
    winners: Seq<Option<Player>>,
) -> bool {
    &&& networks.len() == winners.len() + 1
    &&& others.len() == winners.len() + 1
    &&& forall|game: int|
        0 <= game < winners.len() ==> #[trigger] is_series_game(networks, others, winners, game)
}

/// The winners are the outcomes of a series that the network and the
/// strategy `other` have played, which were `network_after` and
/// `other_after` at its end.
pub open spec fn is_series_of<F: Fn(i64) -> i64, S: Strategy>(
    network: NetworkStrategy<F>,
    other: S,
    winners: Seq<Option<Player>>,
    network_after: NetworkStrategy<F>,
    other_after: S,
) -> bool {
    exists|networks: Seq<NetworkStrategy<F>>, others: Seq<S>|
        (#[trigger] is_series(networks, others, winners)) && networks[0] == network && others[0]
            == other && networks.last() == network_after && others.last() == other_after
}

/// A series goes on by one more game.
pub proof fn lemma_series_goes_on<F: Fn(i64) -> i64, S: Strategy>(
    networks: Seq<NetworkStrategy<F>>,
    others: Seq<S>,
    winners: Seq<Option<Player>>,
    winner: Option<Player>,
    network_after: NetworkStrategy<F>,
    other_after: S,
)
    requires
        is_series(networks, others, winners),
        sided_result(
            side_in(winners.len() as int),
            networks.last(),
            others.last(),
            winner,
            network_after,
            other_after,
        ),
    ensures
        is_series(networks.push(network_after), others.push(other_after), winners.push(winner)),
{
    reveal(is_series);
    let longer = winners.push(winner);
    let longer_networks = networks.push(network_after);
    let longer_others = others.push(other_after);
    assert forall|game: int| 0 <= game < longer.len() implies #[trigger] is_series_game(
        longer_networks,
        longer_others,
        longer,
        game,
    ) by {
        if game < winners.len() {
            assert(is_series_game(networks, others, winners, game));
            assert(longer[game] == winners[game]);
            assert(longer_networks[game] == networks[game] && longer_networks[game + 1]
                == networks[game + 1]);
            assert(longer_others[game] == others[game] && longer_others[game + 1] == others[game
                + 1]);
        } else {
            assert(longer[game] == winner);
            assert(longer_networks[game] == networks.last() && longer_networks[game + 1]
                == network_after);
            assert(longer_others[game] == others.last() && longer_others[game + 1]
                == other_after);
        }
    }
}

/// The score of the network over twice `runs` games against a strategy, in
/// which the two take turns to begin: the network begins the first game.
pub fn score_network<F: Fn(i64) -> i64, Other: Strategy>(
    network_strategy: &mut NetworkStrategy<F>,
    other_strategy: &mut Other,
    runs: usize,
) -> (total_score: u64)
    requires
        old(network_strategy).ready(),
        old(other_strategy).ready(),
        20 * runs <= u64::MAX,
        2 * runs <= usize::MAX,
    ensures
        final(network_strategy).ready(),
        final(other_strategy).ready(),
        total_score <= 20 * runs,
        exists|winners: Seq<Option<Player>>|
            winners.len() == 2 * runs && are_outcomes(winners) && total_score == #[trigger] series_score(
                winners,
                2 * runs,
            ) && is_series_of(
                *old(network_strategy),
                *old(other_strategy),
                winners,
                *final(network_strategy),
                *final(other_strategy),
            ),
{
    let mut total_score: u64 = 0;
    let mut player = Player::X;
    let games: usize = 2 * runs;
    let mut game: usize = 0;
    let ghost mut winners: Seq<Option<Player>> = Seq::empty();
    let ghost mut networks: Seq<NetworkStrategy<F>> = seq![*network_strategy];
    let ghost mut others: Seq<Other> = seq![*other_strategy];
    proof {
        reveal(is_series);
    }
    while game < games
        invariant
            game <= games,
            is_series(networks, others, winners),
            networks.len() == game + 1,
            others.len() == game + 1,
            networks[0] == *old(network_strategy),
            others[0] == *old(other_strategy),
            networks.last() == *network_strategy,
            others.last() == *other_strategy,
            games == 2 * runs,
            20 * runs <= u64::MAX,
            network_strategy.ready(),
            other_strategy.ready(),
            player == side_in(game as int),
            winners.len() == game,
            are_outcomes(winners),
            total_score == series_score(winners, game as int),
            total_score <= 10 * game,
        decreases games - game,
    {
        let outcome = play(network_strategy, player, other_strategy);
        total_score += score_game(outcome, player);
        proof {
            lemma_series_goes_on(
                networks,
                others,
                winners,
                outcome,
                *network_strategy,
                *other_strategy,
            );
            networks = networks.push(*network_strategy);
            others = others.push(*other_strategy);
            let longer = winners.push(outcome);
            lemma_series_score_prefix(winners, longer, game as int);
            assert forall|k: int| 0 <= k < longer.len() implies is_some_outcome(
                #[trigger] longer[k],
            ) by {
                if k < winners.len() {
                    assert(longer[k] == winners[k]);
                }
            }
            winners = longer;
        }
        player = other(player);
        game += 1;
    }
    proof {
        assert(is_series_of(
            *old(network_strategy),
            *old(other_strategy),
            winners,
            *network_strategy,
            *other_strategy,
        ));
    }
    total_score
}

/// The score of a network over two games against another network, in which
/// the two take turns to begin.
pub fn score_network_vs_network<F: Fn(i64) -> i64, G: Fn(i64) -> i64>(
    network1: &mut NetworkStrategy<F>,
    network2: &mut NetworkStrategy<G>,
) -> (score: u64)
    requires
        old(network1).ready(),
        old(network2).ready(),
    ensures
        final(network1).ready(),
        final(network2).ready(),
        score <= 20,
        exists|winners: Seq<Option<Player>>|
            winners.len() == 2 && are_outcomes(winners) && score == #[trigger] series_score(
                winners,
                2,
            ) && is_series_of(*old(network1), *old(network2), winners, *final(network1), *final(network2)),
{
    score_network(network1, network2, 1)
}

/// The number of generations after which a new champion enters the hall of
/// fame.
pub const GENERATIONS_PER_CHAMPION: usize = 25;

/// Past champions, which later generations have to hold their own against.
pub struct HallOfFame {
    pub generations_per_champion: usize,
    pub champions: Vec<Network>,
    pub last_update: usize,
}

/// Tic-tac-toe as an experiment: a network is scored by its games against
/// the networks of its generation and against the champions of the past;
/// `squash` is the activation function of the networks.
pub struct TicTacToeExperiment<F: Fn(i64) -> i64 + Copy> {
    pub hall_of_fame: HallOfFame,
    pub squash: F,
}

/// The strategy plays with a copy of the network and with the activation
/// function `squash`.
pub open spec fn plays_with<F: Fn(i64) -> i64>(
    strategy: NetworkStrategy<F>,
    network: &Network,
    squash: F,
) -> bool {
    &&& strategy.network@ == network@
    &&& strategy.network.id_to_index@ == network.id_to_index@
    &&& strategy.squash == squash
}

/// `winners` are the outcomes of two games between a copy of the network
/// and a copy of the other, in which the two took turns to begin.
pub open spec fn is_pair_series<F: Fn(i64) -> i64>(
    network: &Network,
    other: &Network,
    squash: F,
    winners: Seq<Option<Player>>,
) -> bool {
    exists|
        mine: NetworkStrategy<F>,
        theirs: NetworkStrategy<F>,
        mine_after: NetworkStrategy<F>,
        theirs_after: NetworkStrategy<F>,
    |
        plays_with(mine, network, squash) && plays_with(theirs, other, squash)
            && #[trigger] is_series_of(mine, theirs, winners, mine_after, theirs_after)
}

/// `score` is a score of the network against the other: nothing where one
/// of the two does not suit the board, else the score of the network over
/// two games against the other.
pub open spec fn is_pair_score<F: Fn(i64) -> i64>(
    network: &Network,
    other: &Network,
    squash: F,
    score: int,
) -> bool {
    if suits_board(network) && suits_board(other) {
        exists|winners: Seq<Option<Player>>|
            (#[trigger] is_pair_series(network, other, squash, winners)) && winners.len() == 2
                && score == series_score(winners, 2)
    } else {
        score == 0
    }
}

/// The sum of the first `n` scores.
pub open spec fn scores_sum(scores: Seq<int>, n: int) -> int
    decreases n,
{
    if n <= 0 {
        0
    } else {
        scores_sum(scores, n - 1) + scores[n - 1]
    }
}

/// The sum of scores depends only on the scores counted.
pub proof fn lemma_scores_sum_prefix(a: Seq<int>, b: Seq<int>, n: int)
    requires
        0 <= n <= a.len(),
        n <= b.len(),
        forall|k: int| 0 <= k < n ==> a[k] == b[k],
    ensures
        scores_sum(a, n) == scores_sum(b, n),
    decreases n,
{
    if n > 0 {
        lemma_scores_sum_prefix(a, b, n - 1);
    }
}

/// `scores` holds a score of the network against each of the others.
#[verifier::opaque]
pub open spec fn are_pair_scores<F: Fn(i64) -> i64>(
    network: &Network,
    others: Seq<Network>,
    squash: F,
    scores: Seq<int>,
) -> bool {
    &&& scores.len() == others.len()
    &&& forall|i: int|
        0 <= i < others.len() ==> is_pair_score(network, &others[i], squash, #[trigger] scores[i])
}

/// One more score goes with one more of the others.
pub proof fn lemma_pair_scores_go_on<F: Fn(i64) -> i64>(
    network: &Network,
    others: Seq<Network>,
    squash: F,
    scores: Seq<int>,
    score: int,
)
    requires
        scores.len() < others.len(),
        are_pair_scores(network, others.take(scores.len() as int), squash, scores),
        is_pair_score(network, &others[scores.len() as int], squash, score),
    ensures
        are_pair_scores(network, others.take(scores.len() as int + 1), squash, scores.push(score)),
        scores_sum(scores.push(score), scores.len() as int + 1) == scores_sum(
            scores,
            scores.len() as int,
        )
            + score,
{
    reveal(are_pair_scores);
    let longer = scores.push(score);
    let before = others.take(scores.len() as int);
    let now = others.take(scores.len() as int + 1);
    assert forall|i: int| 0 <= i < now.len() implies is_pair_score(
        network,
        &now[i],
        squash,
        #[trigger] longer[i],
    ) by {
        if i < scores.len() {
            assert(now[i] == before[i]);
            assert(is_pair_score(network, &before[i], squash, scores[i]));
            assert(longer[i] == scores[i]);
        }
    }
    lemma_scores_sum_prefix(scores, longer, scores.len() as int);
}

/// The mean of `count` scores with the sum `total`, in millionths; zero for
/// no scores.
pub open spec fn mean_score_of(total: int, count: int) -> int {
    if count == 0 {
        0
    } else {
        (total * ONE) / count
    }
}

/// The fitness for the mean score against the generation and the mean score
/// against the champions: the square of their sum.
pub open spec fn squared_sum(vs_pop: int, vs_hof: int) -> int {
    ((vs_pop + vs_hof) * (vs_pop + vs_hof)) / (ONE as int)
}

/// `fitness` rates the network by the scores `pop_scores` against the
/// networks of its generation and the scores `hof_scores` against the
/// champions: it is the square of the sum of the two mean scores.
pub open spec fn is_rating<F: Fn(i64) -> i64>(
    network: &Network,
    generation: Seq<Network>,
    champions: Seq<Network>,
    squash: F,
    pop_scores: Seq<int>,
    hof_scores: Seq<int>,
    fitness: u64,
) -> bool {
    &&& are_pair_scores(network, generation, squash, pop_scores)
    &&& are_pair_scores(network, champions, squash, hof_scores)
    &&& fitness == squared_sum(
        mean_score_of(scores_sum(pop_scores, generation.len() as int), generation.len() as int),
        mean_score_of(scores_sum(hof_scores, champions.len() as int), champions.len() as int),
    )
}

impl HallOfFame {
    /// Every champion is a sound network.
    pub open spec fn wf(&self) -> bool {
        forall|i: int| 0 <= i < self.champions@.len() ==> (#[trigger] self.champions@[i]).wf()
    }

    /// A champion is due: the generation has come for which the last one
    /// was entered `generations_per_champion` generations ago or more.
    pub open spec fn is_due(&self, generation: usize) -> bool {
        generation >= self.last_update && self.generations_per_champion <= generation
            - self.last_update
    }

    /// `after` is this hall of fame once it has seen `population`: where a
    /// champion is due and some organism has a fitness above zero, a copy of
    /// the network of an organism of the highest fitness has entered as the
    /// last champion; else nothing has changed.
    pub open spec fn leads_to(&self, population: &Population, after: &HallOfFame) -> bool {
        &&& after.generations_per_champion == self.generations_per_champion
        &&& !self.is_due(population.generation) || population.fitness_within(0)
            ==> after.champions@ == self.champions@ && after.last_update == self.last_update
        &&& self.is_due(population.generation) && !population.fitness_within(0)
            ==> after.champions@.len() == self.champions@.len() + 1 && after.last_update
            == population.generation && (forall|i: int|
            0 <= i < self.champions@.len() ==> #[trigger] after.champions@[i]
                == self.champions@[i]) && exists|s: int, o: int|
            0 <= s < population.species@.len() && 0 <= o < population.species@[s].organisms@.len()
                && after.champions@.last()@ == (
            #[trigger] population.species@[s].organisms@[o]).network@ && population.fitness_within(
                population.species@[s].organisms@[o].fitness,
            )
    }

    /// Enters the network of the population's best organism, where a
    /// champion is due and some organism has a fitness above zero.
    pub fn update(&mut self, population: &Population)
        requires
            old(self).wf(),
            population.sound_species(),
        ensures
            final(self).wf(),
            old(self).leads_to(population, final(self)),
            final(self).generations_per_champion == old(self).generations_per_champion,
            !old(self).is_due(population.generation) || population.fitness_within(0) ==> final(self).champions@ == old(self).champions@ && final(self).last_update == old(self).last_update,
            old(self).is_due(population.generation) && !population.fitness_within(0) ==> final(self).champions@.len() == old(self).champions@.len() + 1 && final(self).last_update
                == population.generation && (forall|i: int|
                0 <= i < old(self).champions@.len() ==> #[trigger] final(self).champions@[i] == old(self).champions@[i]) && exists|s: int, o: int|
                0 <= s < population.species@.len() && 0 <= o
                    < population.species@[s].organisms@.len() && final(self).champions@.last()@
                    == (#[trigger] population.species@[s].organisms@[o]).network@
                    && population.fitness_within(population.species@[s].organisms@[o].fitness),
    {
        if population.generation >= self.last_update && self.generations_per_champion
            <= population.generation - self.last_update {
            match population.best_organism() {
                Some(best) => {
                    let ghost (s, o) = choose|s: int, o: int|
                        0 <= s < population.species@.len() && 0 <= o
                            < population.species@[s].organisms@.len() && *best
                            == #[trigger] population.species@[s].organisms@[o] && (forall|
                            t: int,
                            p: int,
                        |
                            0 <= t < population.species@.len() && 0 <= p
                                < population.species@[t].organisms@.len() ==> (
                            #[trigger] population.species@[t].organisms@[p]).fitness
                                <= best.fitness && ((t < s || (t == s && p < o))
                                ==> population.species@[t].organisms@[p].fitness < best.fitness));
                    proof {
                        assert(population.species@[s].wf());
                        assert(population.species@[s].organisms@[o].wf());
                        assert(population.species@[s].organisms@[o].fitness > 0);
                    }
                    let champion = best.network.duplicate();
                    let ghost before = self.champions@;
                    self.champions.push(champion);
                    self.last_update = population.generation;
                    proof {
                        assert forall|i: int| 0 <= i < self.champions@.len() implies (
                        #[trigger] self.champions@[i]).wf() by {
                            if i < before.len() {
                                assert(self.champions@[i] == before[i]);
                            }
                        }
                        assert(self.champions@.last()@
                            == population.species@[s].organisms@[o].network@);
                    }
                },
                None => {},
            }
        }
    }
}

impl<F: Fn(i64) -> i64 + Copy> TicTacToeExperiment<F> {
    /// An experiment with an empty hall of fame.
    pub fn new(squash: F) -> (experiment: Self)
        ensures
            experiment.squash == squash,
            experiment.hall_of_fame.champions@.len() == 0,
            experiment.hall_of_fame.generations_per_champion == GENERATIONS_PER_CHAMPION,
            experiment.hall_of_fame.last_update == 0,
    {
        TicTacToeExperiment {
            hall_of_fame: HallOfFame {
                generations_per_champion: GENERATIONS_PER_CHAMPION,
                champions: Vec::new(),
                last_update: 0,
            },
            squash,
        }
    }

    /// The mean score of the network over two games against each of the
    /// others, in millionths. A game is only played between networks that
    /// suit the board; another pair scores nothing.
    pub fn mean_score(&self, network: &Network, others: &Vec<Network>) -> (mean: u64)
        requires
            forall|x: i64| call_requires(self.squash, (x,)),
            network.wf(),
            forall|i: int| 0 <= i < others@.len() ==> (#[trigger] others@[i]).wf(),
        ensures
            exists|total: int|
                0 <= total <= 20 * others@.len() && mean == #[trigger] mean_score_of(
                    total,
                    others@.len() as int,
                ),
            mean <= 20 * ONE,
            exists|scores: Seq<int>|
                (#[trigger] are_pair_scores(network, others@, self.squash, scores)) && mean
                    == mean_score_of(
                    scores_sum(scores, others@.len() as int),
                    others@.len() as int,
                ),
    {
        let mut total: u128 = 0;
        let mut i: usize = 0;
        let suited = network.check_ports(9, 9);
        let ghost mut scores: Seq<int> = Seq::empty();
        proof {
            reveal(are_pair_scores);
            assert(others@.take(0).len() == 0);
        }
        while i < others.len()
            invariant
                i <= others@.len(),
                total <= 20 * i,
                scores.len() == i,
                are_pair_scores(network, others@.take(i as int), self.squash, scores),
                total == scores_sum(scores, i as int),
                forall|x: i64| call_requires(self.squash, (x,)),
                network.wf(),
                suited == suits_board(network),
                forall|k: int| 0 <= k < others@.len() ==> (#[trigger] others@[k]).wf(),
            decreases others@.len() - i,
        {
            if suited && others[i].check_ports(9, 9) {
                let mut mine = NetworkStrategy { network: network.duplicate(), squash: self.squash };
                let mut theirs = NetworkStrategy {
                    network: others[i].duplicate(),
                    squash: self.squash,
                };
                proof {
                    assert(genes_of(mine.network@) == genes_of(network@));
                    assert(genes_of(theirs.network@) == genes_of(others@[i as int]@));
                }
                let ghost mine_before = mine;
                let ghost theirs_before = theirs;
                let score = score_network_vs_network(&mut mine, &mut theirs);
                total += score as u128;
                proof {
                    let winners = choose|winners: Seq<Option<Player>>|
                        winners.len() == 2 && are_outcomes(winners) && score
                            == #[trigger] series_score(winners, 2) && is_series_of(
                            mine_before,
                            theirs_before,
                            winners,
                            mine,
                            theirs,
                        );
                    assert(is_pair_series(network, &others@[i as int], self.squash, winners));
                    lemma_pair_scores_go_on(network, others@, self.squash, scores, score as int);
                    scores = scores.push(score as int);
                }
            } else {
                proof {
                    lemma_pair_scores_go_on(network, others@, self.squash, scores, 0);
                    scores = scores.push(0);
                }
            }
            i += 1;
        }
        proof {
            assert(others@.take(others@.len() as int) =~= others@);
        }
        if others.len() == 0 {
            assert(mean_score_of(0, 0) == 0);
            return 0;
        }
        let count = others.len() as u128;
        proof {
            assert(total * ONE <= 20 * count * ONE) by (nonlinear_arith)
                requires
                    0 <= total <= 20 * count,
                    ONE == 1_000_000,
            ;
            assert((total * ONE) / (count as int) <= 20 * ONE) by (nonlinear_arith)
                requires
                    0 <= total * ONE <= 20 * count * ONE,
                    count > 0,
                    ONE == 1_000_000,
            ;
            assert(20 * count * ONE <= 20 * 0xffff_ffff_ffff_ffff * 1_000_000) by (nonlinear_arith)
                requires
                    0 <= count <= 0xffff_ffff_ffff_ffff,
                    ONE == 1_000_000,
            ;
        }
        let mean = (total * (ONE as u128)) / count;
        assert(mean == mean_score_of(total as int, others@.len() as int));
        mean as u64
    }
}

/// The name of the cell with the number `n`: its column and its row.
pub open spec fn cell_name(n: int) -> Seq<char> {
    if n == 0 {
        "00"@
    } else if n == 1 {
        "01"@
    } else if n == 2 {
        "02"@
    } else if n == 3 {
        "10"@
    } else if n == 4 {
        "11"@
    } else if n == 5 {
        "12"@
    } else if n == 6 {
        "20"@
    } else if n == 7 {
        "21"@
    } else {
        "22"@
    }
}

/// The name of a node of the initial genome: the cell for the nine inputs
/// and for the nine outputs, and `B` for the bias node between them.
pub open spec fn board_node_name(id: int) -> Seq<char> {
    if id < 9 {
        cell_name(id)
    } else if id == 9 {
        "B"@
    } else {
        cell_name(id - 10)
    }
}

/// The name of the cell with the number `n`.
pub fn name_of_cell(n: usize) -> (name: &'static str)
    requires
        n < 9,
    ensures
        name@ == cell_name(n as int),
{
    if n == 0 {
        "00"
    } else if n == 1 {
        "01"
    } else if n == 2 {
        "02"
    } else if n == 3 {
        "10"
    } else if n == 4 {
        "11"
    } else if n == 5 {
        "12"
    } else if n == 6 {
        "20"
    } else if n == 7 {
        "21"
    } else {
        "22"
    }
}

impl<F: Fn(i64) -> i64 + Copy> Experiment for TicTacToeExperiment<F> {
    open spec fn ready(&self) -> bool {
        &&& forall|x: i64| call_requires(self.squash, (x,))
        &&& self.hall_of_fame.wf()
    }

    open spec fn rates(&self, network: &Network, all_phenotypes: &Vec<Network>, fitness: u64) -> bool {
        &&& exists|pop_total: int, hof_total: int|
            0 <= pop_total <= 20 * all_phenotypes@.len() && 0 <= hof_total <= 20
                * self.hall_of_fame.champions@.len() && fitness == #[trigger] squared_sum(
                mean_score_of(pop_total, all_phenotypes@.len() as int),
                mean_score_of(hof_total, self.hall_of_fame.champions@.len() as int),
            )
        &&& exists|pop_scores: Seq<int>, hof_scores: Seq<int>| #[trigger]
            is_rating(
                network,
                all_phenotypes@,
                self.hall_of_fame.champions@,
                self.squash,
                pop_scores,
                hof_scores,
                fitness,
            )
    }

    open spec fn learns(&self, population: &Population, after: &Self) -> bool {
        after.squash == self.squash && self.hall_of_fame.leads_to(population, &after.hall_of_fame)
    }

    fn population_settings(&self) -> (settings: Settings)
        ensures
            settings == crate::pop::default_settings(),
    {
        standard_settings()
    }

    fn mutation_settings(&self) -> (settings: crate::mutation::Settings)
        ensures
            settings == (crate::mutation::Settings {
                recurrent_link_prob: 0,
                ..crate::mutation::default_settings()
            }),
    {
        let standard = crate::mutation::standard_settings();
        crate::mutation::Settings {
            new_node_prob: standard.new_node_prob,
            new_link_prob: standard.new_link_prob,
            change_link_weights_prob: standard.change_link_weights_prob,
            change_link_weights_power: standard.change_link_weights_power,
            uniform_perturbation_prob: standard.uniform_perturbation_prob,
            recurrent_link_prob: 0,
            self_link_prob: standard.self_link_prob,
            toggle_enable_prob: standard.toggle_enable_prob,
            mutate_only_prob: standard.mutate_only_prob,
            mutate_after_mating_prob: standard.mutate_after_mating_prob,
            no_crossover_prob: standard.no_crossover_prob,
            interspecies_mating_prob: standard.interspecies_mating_prob,
        }
    }

    fn compat_coefficients(&self) -> (c: CompatCoefficients)
        ensures
            c == crate::pop::default_compat_coefficients(),
    {
        standard_compat_coefficients()
    }

    fn initial_genome(&self) -> (genome: Genome)
        ensures
            genome.wf(),
            genome.nodes@.len() == 19,
            genome.links@.len() == 9,
    {
        Genome::initial_genome(9, 9, 0, true)
    }

    fn node_names(&self) -> (names: HashMap<NodeId, String>)
        ensures
            forall|id: NodeId| names@.contains_key(id) <==> id < 19,
            forall|id: NodeId| id < 19 ==> (#[trigger] names@[id])@ == board_node_name(id as int),
    {
        let mut names: HashMap<NodeId, String> = HashMap::new();
        let mut i: usize = 0;
        while i < 9
            invariant
                i <= 9,
                forall|id: NodeId| names@.contains_key(id) <==> id < i,
                forall|id: NodeId| id < i ==> (#[trigger] names@[id])@ == cell_name(id as int),
            decreases 9 - i,
        {
            names.insert(i, String::from_str(name_of_cell(i)));
            i += 1;
        }
        names.insert(9, String::from_str("B"));
        let mut j: usize = 0;
        while j < 9
            invariant
                j <= 9,
                forall|id: NodeId| names@.contains_key(id) <==> id < 10 + j,
                forall|id: NodeId| id < 10 + j ==> (#[trigger] names@[id])@ == board_node_name(id as int),
            decreases 9 - j,
        {
            names.insert(10 + j, String::from_str(name_of_cell(j)));
            j += 1;
        }
        names
    }

    fn evaluate(&self, network: &mut Network, all_phenotypes: &Vec<Network>) -> (fitness: u64)
        ensures
            *final(network) == *old(network),
    {
        let vs_pop = self.mean_score(network, all_phenotypes);
        let vs_hof = self.mean_score(network, &self.hall_of_fame.champions);
        let sum: u128 = vs_pop as u128 + vs_hof as u128;
        proof {
            let pop_total = choose|total: int|
                0 <= total <= 20 * all_phenotypes@.len() && vs_pop == #[trigger] mean_score_of(
                    total,
                    all_phenotypes@.len() as int,
                );
            let hof_total = choose|total: int|
                0 <= total <= 20 * self.hall_of_fame.champions@.len() && vs_hof
                    == #[trigger] mean_score_of(
                    total,
                    self.hall_of_fame.champions@.len() as int,
                );
            assert(squared_sum(vs_pop as int, vs_hof as int) == squared_sum(
                mean_score_of(pop_total, all_phenotypes@.len() as int),
                mean_score_of(hof_total, self.hall_of_fame.champions@.len() as int),
            ));
            assert(sum * sum <= 40_000_000 * 40_000_000) by (nonlinear_arith)
                requires
                    0 <= sum <= 40_000_000,
            ;
        }
        let fitness = (sum * sum) / (ONE as u128);
        assert(fitness == squared_sum(vs_pop as int, vs_hof as int));
        proof {
            let pop_scores = choose|scores: Seq<int>|
                (#[trigger] are_pair_scores(network, all_phenotypes@, self.squash, scores))
                    && vs_pop == mean_score_of(
                    scores_sum(scores, all_phenotypes@.len() as int),
                    all_phenotypes@.len() as int,
                );
            let hof_scores = choose|scores: Seq<int>|
                (#[trigger] are_pair_scores(
                    network,
                    self.hall_of_fame.champions@,
                    self.squash,
                    scores,
                )) && vs_hof == mean_score_of(
                    scores_sum(scores, self.hall_of_fame.champions@.len() as int),
                    self.hall_of_fame.champions@.len() as int,
                );
            assert(is_rating(
                network,
                all_phenotypes@,
                self.hall_of_fame.champions@,
                self.squash,
                pop_scores,
                hof_scores,
                fitness as u64,
            ));
        }
        fitness as u64
    }

    fn post_evaluation(&mut self, population: &Population) {
        self.hall_of_fame.update(population);
    }
}

} // verus!
