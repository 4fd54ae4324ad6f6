use neat::exp::tictactoe::exp::{
    best_legal_move, board_input, play, score_game, score_network, score_network_vs_network,
    HallOfFame, NetworkStrategy, TicTacToeExperiment,
};
use neat::exp::Experiment;
use neat::pop::{standard_compat_coefficients, standard_settings, Population};
use neat::exp::tictactoe::game::{
    how_to_win, initial_state, other, play_recorded, state_to_string, GameState, Player, Strategy,
};
use neat::exp::tictactoe::strats::{
    answer_fork, completion, count_fields, fork_moves, forcing_moves, input_move, legal_moves,
    next_is_fork, BadStrategy, BestStrategy, CenterStrategy, RandomStrategy,
};
use neat::genes::Genome;
use neat::nn::Network;
use rand::{SeedableRng, StdRng};

fn seeded(seed: usize) -> StdRng {
    StdRng::from_seed(&[seed, 99][..])
}

fn squash(x: i64) -> i64 {
    ((x as f64 / 1e6).tanh() * 1e6).round() as i64
}

fn board(rows: [&str; 3]) -> GameState {
    // rows[y] holds the cells (0, y), (1, y), (2, y)
    let mut state = initial_state();
    for (y, row) in rows.iter().enumerate() {
        for (x, c) in row.chars().enumerate() {
            state.field[x][y] = match c {
                'X' => Some(Player::X),
                'O' => Some(Player::O),
                _ => None,
            };
        }
    }
    state
}

fn best(seed: usize, forkable: bool) -> BestStrategy {
    BestStrategy { forkable, rng: seeded(seed) }
}

#[test]
fn the_winning_lines() {
    let lines: Vec<Vec<(usize, usize)>> =
        (0..8).map(|k| (0..3).map(|j| how_to_win(k, j)).collect()).collect();
    assert_eq!(
        lines,
        vec![
            vec![(0, 0), (0, 1), (0, 2)],
            vec![(1, 0), (1, 1), (1, 2)],
            vec![(2, 0), (2, 1), (2, 2)],
            vec![(0, 0), (1, 0), (2, 0)],
            vec![(0, 1), (1, 1), (2, 1)],
            vec![(0, 2), (1, 2), (2, 2)],
            vec![(0, 0), (1, 1), (2, 2)],
            vec![(2, 0), (1, 1), (0, 2)],
        ]
    );
}

#[test]
fn a_full_line_wins() {
    assert!(board(["XXX", "O O", "   "]).has_won(Player::X));
    assert!(!board(["XXX", "O O", "   "]).has_won(Player::O));
    assert!(board(["XO ", "XO ", "X  "]).has_won(Player::X));
    assert!(board(["O X", " OX", "X O"]).has_won(Player::O));
    assert!(board(["X O", " O ", "O X"]).has_won(Player::O));
    assert!(!board(["XOX", "OXO", "OXO"]).has_won(Player::X));
    assert!(!initial_state().has_won(Player::X));
}

#[test]
fn a_move_takes_one_cell() {
    let state = initial_state().move_copy(Player::O, (2, 1));
    assert_eq!(state, board(["   ", "  O", "   "]));
    assert_eq!(state.get(2, 1), Some(Player::O));
    assert_eq!(state.get(1, 2), None);
    assert_eq!(other(Player::X), Player::O);
    assert_eq!(other(Player::O), Player::X);
}

#[test]
fn lines_are_counted() {
    let state = board(["XX ", "O  ", "  O"]);
    assert_eq!(count_fields(&state, Some(Player::X), 3), 2);
    assert_eq!(count_fields(&state, None, 3), 1);
    assert_eq!(count_fields(&state, Some(Player::O), 6), 1);
    assert_eq!(count_fields(&state, Some(Player::X), 6), 1);
    assert_eq!(count_fields(&state, None, 5), 2);
    assert_eq!(legal_moves(&state).len(), 5);
    assert_eq!(legal_moves(&state)[0], (0, 2));
}

#[test]
fn the_book_strategy_completes_a_line() {
    let state = board(["XX ", "OO ", "   "]);
    assert_eq!(completion(&state, Player::X), Some((2, 0)));
    assert_eq!(completion(&state, Player::O), Some((2, 1)));
    assert_eq!(best(1, false).get_move(Player::X, &state), (2, 0));
    assert_eq!(best(1, false).get_move(Player::O, &state), (2, 1));
}

#[test]
fn the_book_strategy_blocks_a_line() {
    let state = board(["X  ", " X ", "O  "]);
    assert_eq!(completion(&state, Player::O), None);
    assert_eq!(completion(&state, Player::X), Some((2, 2)));
    assert_eq!(best(2, false).get_move(Player::O, &state), (2, 2));
    assert_eq!(best(2, true).get_move(Player::O, &state), (2, 2));
}

#[test]
fn the_book_strategy_makes_a_fork() {
    let state = board(["X  ", " O ", "  X"]);
    assert!(next_is_fork(&state, Player::X, (2, 0)));
    assert!(next_is_fork(&state, Player::X, (0, 2)));
    assert!(!next_is_fork(&state, Player::X, (1, 0)));
    assert_eq!(fork_moves(&state, Player::X), vec![(0, 2), (2, 0)]);
    for seed in 0..10 {
        let position = best(seed, false).get_move(Player::X, &state);
        assert!(position == (2, 0) || position == (0, 2));
    }
}

#[test]
fn the_book_strategy_answers_a_fork_by_forcing_a_block() {
    let state = board(["X  ", " O ", "  X"]);
    let forcing = forcing_moves(&state, Player::O);
    assert!(!forcing.is_empty());
    for seed in 0..10 {
        let position = best(seed, false).get_move(Player::O, &state);
        // a side: the corners would let X fork
        assert!([(1, 0), (0, 1), (2, 1), (1, 2)].contains(&position));
    }
}

#[test]
fn the_book_strategy_takes_centre_corner_and_side_in_turn() {
    assert_eq!(best(3, false).get_move(Player::X, &initial_state()), (1, 1));
    let centre_taken = board(["   ", " X ", "   "]);
    let position = best(3, true).get_move(Player::O, &centre_taken);
    assert!([(0, 0), (2, 0), (0, 2), (2, 2)].contains(&position));
    let opposite = board(["X  ", " O ", "   "]);
    assert_eq!(best(3, true).get_move(Player::O, &opposite), (2, 2));
    let sides_left = board(["XOX", " X ", "OXO"]);
    let position = best(3, true).get_move(Player::O, &sides_left);
    assert!(position == (0, 1) || position == (2, 1));
}

#[test]
fn the_simple_strategies() {
    let state = board(["X  ", "   ", "  O"]);
    let mut center = CenterStrategy { random: RandomStrategy { rng: seeded(4) } };
    assert_eq!(center.get_move(Player::X, &state), (1, 1));
    let taken = board(["X  ", " O ", "   "]);
    for _ in 0..20 {
        let position = center.get_move(Player::X, &taken);
        assert!(taken.get(position.0, position.1).is_none());
    }
    let mut bad = BadStrategy { rng: seeded(5) };
    for _ in 0..20 {
        let position = bad.get_move(Player::X, &state);
        assert!([(0, 1), (1, 0), (2, 1), (1, 2)].contains(&position));
    }
    let no_sides = board([" X ", "O X", " O "]);
    for _ in 0..20 {
        let position = bad.get_move(Player::X, &no_sides);
        assert!([(0, 0), (2, 0), (0, 2), (2, 2)].contains(&position));
    }
    let centre_only = board(["XOX", "O X", "XOO"]);
    assert_eq!(bad.get_move(Player::X, &centre_only), (1, 1));
    let mut random = RandomStrategy { rng: seeded(6) };
    assert_eq!(random.get_move(Player::O, &centre_only), (1, 1));
}

#[test]
fn a_game_is_recorded_move_by_move() {
    for seed in 0..30 {
        let mut x = RandomStrategy { rng: seeded(seed) };
        let mut o = best(seed + 100, false);
        let (winner, history) = play_recorded(&mut x, &mut o);
        assert!(2 <= history.len() && history.len() <= 10);
        assert_eq!(history[0], initial_state());
        for k in 0..history.len() - 1 {
            let mover = if k % 2 == 0 { Player::X } else { Player::O };
            let mut changed = 0;
            for x in 0..3 {
                for y in 0..3 {
                    if history[k].get(x, y) != history[k + 1].get(x, y) {
                        assert_eq!(history[k].get(x, y), None);
                        assert_eq!(history[k + 1].get(x, y), Some(mover));
                        changed += 1;
                    }
                }
            }
            assert_eq!(changed, 1);
            if k > 0 {
                assert!(!history[k].has_won(Player::X) && !history[k].has_won(Player::O));
            }
        }
        let last = history.last().unwrap();
        match winner {
            Some(player) => assert!(last.has_won(player)),
            None => {
                assert_eq!(history.len(), 10);
                assert!(!last.has_won(Player::X) && !last.has_won(Player::O));
            }
        }
        // the book strategy does not lose to random moves
        assert!(winner != Some(Player::X));
    }
}

#[test]
fn two_book_players_draw() {
    for seed in 0..10 {
        let mut x = best(seed, false);
        let mut o = best(seed + 50, false);
        let (winner, history) = play_recorded(&mut x, &mut o);
        assert_eq!(winner, None);
        assert_eq!(history.len(), 10);
    }
}

#[test]
fn the_board_as_a_network_sees_it() {
    let state = board(["X O", "   ", " X "]);
    let input = board_input(Player::X, &state);
    let values: Vec<i64> = input.iter().map(|p| p.1).collect();
    assert_eq!(values, vec![1_000_000, 0, 0, 0, 0, 1_000_000, -1_000_000, 0, 0]);
    let ids: Vec<usize> = input.iter().map(|p| p.0).collect();
    assert_eq!(ids, (0..9).collect::<Vec<usize>>());
    let other: Vec<i64> = board_input(Player::O, &state).iter().map(|p| p.1).collect();
    assert_eq!(other, vec![-1_000_000, 0, 0, 0, 0, -1_000_000, 1_000_000, 0, 0]);
}

#[test]
fn the_free_cell_with_the_highest_output_is_taken() {
    let state = board(["X O", "   ", " X "]);
    let output = |values: [i64; 9]| -> Vec<(usize, i64)> {
        values.iter().enumerate().map(|(i, v)| (10 + i, *v)).collect()
    };
    assert_eq!(best_legal_move(&state, &output([9, 1, 2, 3, 4, 9, 9, 5, 5])), Some((2, 1)));
    assert_eq!(best_legal_move(&state, &output([0, -5, -5, -4, -9, 0, 0, -4, -7])), Some((1, 0)));
    assert_eq!(best_legal_move(&state, &output([0; 9])), Some((0, 1)));
    assert_eq!(best_legal_move(&board(["XOX", "OXO", "OXO"]), &output([0; 9])), None);
}

fn network_player(seed: usize) -> NetworkStrategy<fn(i64) -> i64> {
    let mut genome = Genome::initial_genome(9, 9, 9, true);
    let mut rng = seeded(seed);
    neat::mutation::change_link_weights_reset_all(&mut genome, &mut rng, 1_000_000);
    NetworkStrategy { network: Network::from_genome(&genome), squash: squash as fn(i64) -> i64 }
}

#[test]
fn a_network_plays_legal_moves() {
    let mut player = network_player(1);
    let state = board(["X O", " O ", " X "]);
    let position = player.get_move(Player::X, &state);
    assert!(state.get(position.0, position.1).is_none());
    assert_eq!(player.get_move(Player::X, &state), position);
    let almost_full = board(["XOX", "OXO", "OX "]);
    assert_eq!(player.get_move(Player::O, &almost_full), (2, 2));
}

#[test]
fn games_are_scored() {
    assert_eq!(score_game(Some(Player::X), Player::X), 10);
    assert_eq!(score_game(Some(Player::O), Player::X), 0);
    assert_eq!(score_game(Some(Player::O), Player::O), 10);
    assert_eq!(score_game(None, Player::O), 1);
    let mut player = network_player(2);
    let mut book = best(7, false);
    let total = score_network(&mut player, &mut book, 5);
    assert!(total <= 10);
    let mut random = RandomStrategy { rng: seeded(8) };
    let total = score_network(&mut player, &mut random, 5);
    assert!(total <= 100);
    let mut opponent = network_player(3);
    let score = score_network_vs_network(&mut player, &mut opponent);
    assert!(score <= 20);
    assert_eq!(score, score_network_vs_network(&mut player, &mut opponent));
}

#[test]
fn the_network_plays_on_the_side_that_it_is_given() {
    let mut player = network_player(4);
    let mut book = best(9, false);
    let as_x = play(&mut player, Player::X, &mut book);
    assert!(as_x != Some(Player::X));
    let as_o = play(&mut player, Player::O, &mut book);
    assert!(as_o != Some(Player::O));
}

#[test]
fn a_board_is_shown_row_by_row() {
    assert_eq!(state_to_string(&board(["X O", " X ", "O  "])), "X O\n X \nO  \n---\n");
    assert_eq!(state_to_string(&initial_state()), "   \n   \n   \n---\n");
}

#[test]
fn a_typed_line_names_a_free_cell() {
    let state = board(["X  ", "   ", "  O"]);
    assert_eq!(input_move("1\n", &state), Some((1, 0)));
    assert_eq!(input_move("5\n", &state), Some((2, 1)));
    assert_eq!(input_move("6\n", &state), Some((0, 2)));
    assert_eq!(input_move("007\n", &state), Some((1, 2)));
    assert_eq!(input_move("0\n", &state), None);
    assert_eq!(input_move("8\n", &state), None);
    assert_eq!(input_move("9\n", &state), None);
    assert_eq!(input_move("10\n", &state), None);
    assert_eq!(input_move("99999999999999999999999999\n", &state), None);
    assert_eq!(input_move("\n", &state), None);
    assert_eq!(input_move("", &state), None);
    assert_eq!(input_move("3", &state), None);
    assert_eq!(input_move("x\n", &state), None);
    assert_eq!(input_move("3 \n", &state), None);
    assert_eq!(input_move("-3\n", &state), None);
    assert_eq!(input_move("34", &state), Some((0, 1)));
}

fn board_network(seed: usize) -> Network {
    network_player(seed).network
}

fn small_population(size: usize, generation: usize) -> Population {
    let mut rng = seeded(11);
    let mut population = Population::from_initial_genome(
        &mut rng,
        &standard_settings(),
        &neat::mutation::standard_settings(),
        &standard_compat_coefficients(),
        &Genome::initial_genome(9, 9, 0, true),
        size,
    );
    population.generation = generation;
    population
}

#[test]
fn the_experiment_starts_with_an_empty_hall_of_fame() {
    let experiment = TicTacToeExperiment::new(squash as fn(i64) -> i64);
    assert_eq!(experiment.hall_of_fame.champions.len(), 0);
    assert_eq!(experiment.hall_of_fame.generations_per_champion, 25);
    assert_eq!(experiment.hall_of_fame.last_update, 0);
    let genome = experiment.initial_genome();
    assert_eq!((genome.nodes.len(), genome.links.len()), (19, 9));
    assert_eq!(experiment.mutation_settings().recurrent_link_prob, 0);
    assert_eq!(experiment.mutation_settings().new_link_prob, 300_000);
    assert_eq!(experiment.population_settings().compat_threshold, 6_000_000);
    assert_eq!(experiment.compat_coefficients().disjoint, 1_000_000);
}

#[test]
fn a_network_is_scored_against_its_generation_and_the_champions() {
    let mut experiment = TicTacToeExperiment::new(squash as fn(i64) -> i64);
    let mut network = board_network(1);
    let others = vec![board_network(2), board_network(3), board_network(4)];
    let vs_pop = experiment.mean_score(&network, &others);
    assert!(vs_pop <= 20_000_000);
    assert_eq!(experiment.mean_score(&network, &vec![]), 0);
    let alone = experiment.evaluate(&mut network, &others);
    assert_eq!(alone, (vs_pop as u128 * vs_pop as u128 / 1_000_000) as u64);
    assert_eq!(alone, experiment.evaluate(&mut network, &others));
    experiment.hall_of_fame.champions.push(board_network(5));
    let vs_hof = experiment.mean_score(&network, &experiment.hall_of_fame.champions);
    let sum = vs_pop as u128 + vs_hof as u128;
    assert_eq!(experiment.evaluate(&mut network, &others), (sum * sum / 1_000_000) as u64);
}

#[test]
fn the_mean_score_is_the_mean_of_the_scores() {
    let experiment = TicTacToeExperiment::new(squash as fn(i64) -> i64);
    let network = board_network(1);
    let others = vec![board_network(2), board_network(3), board_network(4)];
    let mut total = 0;
    for other in others.iter() {
        let mut mine = NetworkStrategy { network: network.duplicate(), squash: squash as fn(i64) -> i64 };
        let mut theirs = NetworkStrategy { network: other.duplicate(), squash: squash as fn(i64) -> i64 };
        total += score_network_vs_network(&mut mine, &mut theirs);
    }
    assert_eq!(experiment.mean_score(&network, &others), total * 1_000_000 / 3);
}

#[test]
fn networks_that_do_not_suit_the_board_score_nothing() {
    let experiment = TicTacToeExperiment::new(squash as fn(i64) -> i64);
    let small = Network::from_genome(&Genome::initial_genome(2, 1, 2, true));
    assert_eq!(experiment.mean_score(&small, &vec![board_network(1)]), 0);
    assert_eq!(experiment.mean_score(&board_network(1), &vec![small]), 0);
}

#[test]
fn a_champion_enters_the_hall_of_fame_when_one_is_due() {
    let mut hall = HallOfFame { generations_per_champion: 25, champions: vec![], last_update: 0 };
    let mut early = small_population(3, 24);
    early.species[0].organisms[1].fitness = 5;
    hall.update(&early);
    assert_eq!((hall.champions.len(), hall.last_update), (0, 0));
    let mut due = small_population(3, 25);
    hall.update(&due);
    // nobody has a fitness yet
    assert_eq!((hall.champions.len(), hall.last_update), (0, 0));
    due.species[0].organisms[2].fitness = 5;
    due.species[0].organisms[2].network.nodes[0].activation = 77;
    hall.update(&due);
    assert_eq!((hall.champions.len(), hall.last_update), (1, 25));
    assert_eq!(hall.champions[0].nodes[0].activation, 77);
    due.generation = 49;
    hall.update(&due);
    assert_eq!((hall.champions.len(), hall.last_update), (1, 25));
    due.generation = 50;
    hall.update(&due);
    assert_eq!((hall.champions.len(), hall.last_update), (2, 50));
    due.generation = 10;
    hall.update(&due);
    assert_eq!((hall.champions.len(), hall.last_update), (2, 50));
}

#[test]
fn the_experiment_keeps_its_hall_of_fame() {
    let mut experiment = TicTacToeExperiment::new(squash as fn(i64) -> i64);
    let mut population = small_population(4, 30);
    neat::exp::evaluate(&mut experiment, &mut population);
    let fitness: Vec<u64> = population.species[0].organisms.iter().map(|o| o.fitness).collect();
    assert!(fitness.iter().all(|f| *f <= 400_000_000));
    if fitness.iter().any(|f| *f > 0) {
        assert_eq!(experiment.hall_of_fame.champions.len(), 1);
        assert_eq!(experiment.hall_of_fame.last_update, 30);
    } else {
        assert_eq!(experiment.hall_of_fame.champions.len(), 0);
    }
}

struct Scripted {
    moves: Vec<(usize, usize)>,
    seen: Vec<(Player, GameState)>,
}

impl Strategy for Scripted {
    fn ready(&self) -> bool {
        true
    }

    fn chooses(
        &self,
        _me: Player,
        _state: &GameState,
        _position: (usize, usize),
        _after: &Self,
    ) -> bool {
        true
    }

    fn get_move(&mut self, me: Player, state: &GameState) -> (usize, usize) {
        let at = self.seen.len();
        self.seen.push((me, *state));
        self.moves[at]
    }
}

fn scripted(moves: &[(usize, usize)]) -> Scripted {
    Scripted { moves: moves.to_vec(), seen: Vec::new() }
}

fn shows(state: &GameState, xs: &[(usize, usize)], os: &[(usize, usize)]) -> bool {
    (0..3).all(|x| {
        (0..3).all(|y| {
            let held = if xs.contains(&(x, y)) {
                Some(Player::X)
            } else if os.contains(&(x, y)) {
                Some(Player::O)
            } else {
                None
            };
            state.get(x, y) == held
        })
    })
}

#[test]
fn the_players_are_asked_in_turn_until_one_has_won() {
    let x_moves = [(0, 0), (1, 0), (2, 0), (2, 2)];
    let o_moves = [(0, 1), (1, 1), (2, 1)];
    let mut x = scripted(&x_moves);
    let mut o = scripted(&o_moves);
    assert_eq!(neat::exp::tictactoe::game::play(&mut x, &mut o), Some(Player::X));
    assert_eq!(x.seen.len(), 3);
    assert_eq!(o.seen.len(), 2);
    assert_eq!(x.seen[0], (Player::X, initial_state()));
    for (k, (me, state)) in x.seen.iter().enumerate() {
        assert_eq!(*me, Player::X);
        assert!(shows(state, &x_moves[..k], &o_moves[..k]));
    }
    for (k, (me, state)) in o.seen.iter().enumerate() {
        assert_eq!(*me, Player::O);
        assert!(shows(state, &x_moves[..k + 1], &o_moves[..k]));
    }
}

#[test]
fn the_second_player_can_win() {
    let mut x = scripted(&[(0, 0), (1, 0), (2, 2), (0, 2)]);
    let mut o = scripted(&[(0, 1), (1, 1), (2, 1)]);
    assert_eq!(neat::exp::tictactoe::game::play(&mut x, &mut o), Some(Player::O));
    assert_eq!((x.seen.len(), o.seen.len()), (3, 3));
}

#[test]
fn nine_moves_without_a_line_are_a_draw() {
    let x_moves = [(0, 0), (2, 0), (0, 1), (1, 2), (2, 2)];
    let o_moves = [(1, 0), (1, 1), (2, 1), (0, 2)];
    let mut x = scripted(&x_moves);
    let mut o = scripted(&o_moves);
    let (winner, history) = play_recorded(&mut x, &mut o);
    assert_eq!(winner, None);
    assert_eq!(history.len(), 10);
    assert_eq!((x.seen.len(), o.seen.len()), (5, 4));
    assert!(shows(&history[9], &x_moves, &o_moves));
    for (k, (_, state)) in x.seen.iter().enumerate() {
        assert_eq!(*state, history[2 * k]);
    }
    for (k, (_, state)) in o.seen.iter().enumerate() {
        assert_eq!(*state, history[2 * k + 1]);
    }
}

#[test]
fn a_fork_without_a_forcing_move_is_answered_on_its_first_cell() {
    let state = board(["X  ", "  X", "   "]);
    assert_eq!(forcing_moves(&state, Player::O), vec![]);
    assert_eq!(completion(&state, Player::X), None);
    assert!(next_is_fork(&state, Player::X, (0, 1)));
    assert!(next_is_fork(&state, Player::X, (1, 1)));
    for seed in 0..10 {
        assert_eq!(answer_fork(&state, Player::O, &mut seeded(seed)), Some((0, 1)));
        assert_eq!(best(seed, false).get_move(Player::O, &state), (0, 1));
    }
    assert_eq!(answer_fork(&initial_state(), Player::O, &mut seeded(1)), None);
}

#[test]
fn a_fork_is_answered_by_one_of_the_forcing_moves() {
    let state = board(["X  ", " O ", "  X"]);
    let forcing = forcing_moves(&state, Player::O);
    assert!(!forcing.is_empty());
    for seed in 0..20 {
        let answer = answer_fork(&state, Player::O, &mut seeded(seed)).unwrap();
        assert!(forcing.contains(&answer));
        assert_eq!(state.get(answer.0, answer.1), None);
    }
}

#[test]
fn the_network_player_shows_the_board_and_activates_nine_times() {
    for seed in 0..5 {
        let mut player = network_player(seed);
        let mut network = player.network.duplicate();
        let state = board(["X O", " O ", " X "]);
        let position = player.get_move(Player::X, &state);
        network.flush();
        network.set_input(&board_input(Player::X, &state));
        for _ in 0..9 {
            network.activate(&(squash as fn(i64) -> i64));
        }
        let output = network.get_output();
        assert_eq!(best_legal_move(&state, &output), Some(position));
        assert_eq!(player.network.get_output(), output);
    }
}
