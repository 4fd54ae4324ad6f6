use neat::exp::pole::PoleExperiment;
use neat::exp::roadgame::{
    advance, decide, initial_state, network_input, road_fitness, road_game_step, road_input,
    run_game, spawn, state_to_string, GameState, MoveInput, RoadGameExperiment,
};
use neat::exp::Experiment;
use neat::genes::Genome;
use neat::nn::Network;
use rand::{Rng, SeedableRng, StdRng};

fn squash(x: i64) -> i64 {
    ((x as f64 / 1e6).tanh() * 1e6).round() as i64
}

fn road(rows: [&str; 4], player_x: usize) -> GameState {
    // rows[0] is the row that comes in, rows[3] the row of the player
    let mut state = initial_state(1);
    for (k, row) in rows.iter().enumerate() {
        for (x, c) in row.chars().enumerate() {
            state.set(x, 3 - k, c == 'o');
        }
    }
    state.player_x = player_x;
    state
}

fn rows_of(state: &GameState) -> Vec<String> {
    (0..4)
        .rev()
        .map(|y| (0..3).map(|x| if state.get(x, y) { 'o' } else { ' ' }).collect())
        .collect()
}

#[test]
fn the_pole_experiment_starts_small_and_scores_nothing() {
    let mut experiment = PoleExperiment;
    let genome = experiment.initial_genome();
    assert_eq!(genome.nodes.len(), 7);
    assert_eq!(genome.links.len(), 2);
    assert_eq!(experiment.population_settings().dropoff_age, 15);
    assert_eq!(experiment.mutation_settings().new_link_prob, 300_000);
    assert_eq!(experiment.compat_coefficients().weight_diff, 400_000);
    let mut network = Network::from_genome(&genome);
    assert_eq!(experiment.evaluate(&mut network, &vec![]), 0);
    let mut rng = <rand::StdRng as rand::SeedableRng<&[usize]>>::from_seed(&[1usize][..]);
    let population = neat::pop::Population::from_initial_genome(
        &mut rng,
        &experiment.population_settings(),
        &experiment.mutation_settings(),
        &experiment.compat_coefficients(),
        &genome,
        3,
    );
    experiment.post_evaluation(&population);
}

#[test]
fn a_game_starts_on_an_empty_road() {
    let state = initial_state(42);
    assert_eq!(rows_of(&state), vec!["   ", "   ", "   ", "   "]);
    assert_eq!((state.player_x, state.hits, state.hit_now), (1, 0, false));
}

#[test]
fn objects_come_nearer_and_hit_the_player() {
    let mut state = road(["o  ", " o ", "o o", "   "], 1);
    advance(&mut state, None);
    assert_eq!(rows_of(&state), vec!["o  ", "o  ", " o ", "o o"]);
    assert_eq!((state.player_x, state.hits, state.hit_now), (1, 0, false));
    advance(&mut state, None);
    assert_eq!(rows_of(&state), vec!["o  ", "o  ", "o  ", " o "]);
    assert_eq!((state.player_x, state.hits, state.hit_now), (1, 1, true));
    advance(&mut state, Some(MoveInput::Right));
    assert_eq!((state.player_x, state.hits, state.hit_now), (2, 1, false));
    advance(&mut state, Some(MoveInput::Left));
    advance(&mut state, Some(MoveInput::Left));
    assert_eq!((state.player_x, state.hits, state.hit_now), (0, 2, true));
}

#[test]
fn the_player_stays_on_the_road() {
    let mut state = road(["   ", "   ", "   ", "   "], 0);
    advance(&mut state, Some(MoveInput::Left));
    assert_eq!(state.player_x, 0);
    advance(&mut state, Some(MoveInput::Right));
    advance(&mut state, Some(MoveInput::Right));
    assert_eq!(state.player_x, 2);
    advance(&mut state, Some(MoveInput::Right));
    assert_eq!(state.player_x, 2);
}

#[test]
fn at_most_two_objects_come_in_and_never_a_wall_in_the_middle() {
    let mut both = 0;
    for seed in 0..300 {
        let mut state = initial_state(seed);
        for _ in 0..40 {
            let before = rows_of(&state);
            spawn(&mut state);
            let after = rows_of(&state);
            assert_eq!(after[1..], before[1..]);
            let incoming = after[0].chars().filter(|c| *c == 'o').count();
            assert!(incoming <= 2);
            if incoming == 2 {
                both += 1;
            }
            assert!(!(state.get(1, 1) && state.get(1, 2) && state.get(1, 3)));
            advance(&mut state, None);
        }
    }
    assert!(both > 0);
}

#[test]
fn a_step_moves_shifts_and_spawns() {
    let mut state = road(["   ", "o  ", " o ", "   "], 1);
    road_game_step(&mut state, Some(MoveInput::Left));
    assert_eq!(state.player_x, 0);
    assert_eq!(rows_of(&state)[1..], vec!["   ", "o  ", " o "]);
    assert!(!state.hit_now);
    road_game_step(&mut state, None);
    assert!(state.hit_now);
    assert_eq!(state.hits, 1);
}

#[test]
fn the_network_sees_the_player_and_the_rows_ahead() {
    let state = road(["o o", "   ", " o ", "ooo"], 2);
    let values: Vec<i64> = road_input(&state).iter().map(|p| p.1 / 1_000_000).collect();
    assert_eq!(values, vec![-1, -1, 1, -1, 1, -1, -1, -1, -1, 1, -1, 1]);
    let ids: Vec<usize> = road_input(&state).iter().map(|p| p.0).collect();
    assert_eq!(ids, (0..12).collect::<Vec<usize>>());
}

#[test]
fn the_output_decides_the_move() {
    assert_eq!(decide(500_001), Some(MoveInput::Right));
    assert_eq!(decide(500_000), None);
    assert_eq!(decide(0), None);
    assert_eq!(decide(-500_000), None);
    assert_eq!(decide(-500_001), Some(MoveInput::Left));
}

#[test]
fn a_network_steers() {
    let mut genome = Genome::initial_genome(12, 1, 12, true);
    for l in genome.links.iter_mut() {
        l.weight = 0;
    }
    // the player's own lane decides: to the right from lane zero, to the left from lane two
    genome.links[0].weight = 1_000_000;
    genome.links[2].weight = -1_000_000;
    let mut network = Network::from_genome(&genome);
    let at = |player_x| road(["   ", "   ", "   ", "   "], player_x);
    // tanh(1 - (-1)) = tanh(2) = 0.96
    assert_eq!(network_input(&at(0), &mut network, &squash), Some(MoveInput::Right));
    assert_eq!(network_input(&at(2), &mut network, &squash), Some(MoveInput::Left));
    assert_eq!(network_input(&at(1), &mut network, &squash), None);
}

#[test]
fn the_fitness_is_the_squared_mean_number_of_steps() {
    assert_eq!(road_fitness(1500, 500), 9_000_000);
    assert_eq!(road_fitness(750, 500), 2_250_000);
    assert_eq!(road_fitness(1, 3), 111_110);
    assert_eq!(road_fitness(0, 7), 0);
    assert_eq!(road_fitness(5_000_000, 500), 100_000_000_000_000);
}

#[test]
fn a_run_ends_with_a_hit_or_after_the_given_steps() {
    let genome = Genome::initial_genome(12, 1, 0, true);
    let mut network = Network::from_genome(&genome);
    for seed in 0..50 {
        let mut state = initial_state(seed);
        let steps = run_game(&mut state, &mut network, &squash, 30);
        assert!(1 <= steps && steps <= 30);
        assert!(state.hit_now || steps == 30);
        assert_eq!(state.hits, if state.hit_now { 1 } else { 0 });
    }
    let mut state = initial_state(3);
    assert_eq!(run_game(&mut state, &mut network, &squash, 0), 0);
}

#[test]
fn an_evaluation_repeats_itself() {
    let experiment = RoadGameExperiment { squash: squash as fn(i64) -> i64 };
    let genome = experiment.initial_genome();
    assert_eq!(genome.nodes.len(), 14);
    assert_eq!(genome.links.len(), 1);
    let mut network = Network::from_genome(&genome);
    let first = experiment.evaluate_runs(&mut network, 7, 20, 50);
    assert_eq!(first, experiment.evaluate_runs(&mut network, 7, 20, 50));
    assert!(first >= 1_000_000);
    assert!(first <= 2_500_000_000);
    let whole = experiment.evaluate(&mut network, &vec![]);
    assert_eq!(whole, experiment.evaluate(&mut network, &vec![]));
    assert!(whole >= 1_000_000);
}

#[test]
fn a_network_without_the_inputs_scores_nothing() {
    let experiment = RoadGameExperiment { squash: squash as fn(i64) -> i64 };
    let mut small = Network::from_genome(&Genome::initial_genome(11, 1, 0, true));
    assert_eq!(experiment.evaluate_runs(&mut small, 7, 20, 50), 0);
    let mut mute = Network::from_genome(&Genome::initial_genome(12, 0, 0, true));
    assert_eq!(experiment.evaluate(&mut mute, &vec![]), 0);
    assert!(!small.check_ports(12, 1));
    assert!(small.check_ports(11, 1));
    assert!(!small.check_ports(11, 2));
}

#[test]
fn the_road_is_shown_from_the_far_end() {
    let mut state = road(["o o", "   ", " o ", "ooo"], 2);
    assert_eq!(state_to_string(&state), "o o\n   \n o \nooX\n");
    state.hit_now = true;
    state.player_x = 0;
    assert_eq!(state_to_string(&state), "o o\n   \n o \nHoo\n");
}

#[test]
fn the_nodes_of_the_initial_genomes_have_names() {
    let pole = PoleExperiment.node_names();
    assert_eq!(pole.len(), 4);
    assert_eq!(pole[&0], "X");
    assert_eq!(pole[&1], "X_DOT");
    assert_eq!(pole[&2], "THETA");
    assert_eq!(pole[&3], "THETA_DOT");
    let road = RoadGameExperiment { squash: squash as fn(i64) -> i64 }.node_names();
    let names: Vec<&str> = (0..14).map(|id| road[&id].as_str()).collect();
    assert_eq!(
        names,
        vec!["P0", "P1", "P2", "01", "11", "21", "02", "12", "22", "03", "13", "23", "B", "O"]
    );
    assert_eq!(road.len(), 14);
    let board = neat::exp::tictactoe::exp::TicTacToeExperiment::new(squash as fn(i64) -> i64)
        .node_names();
    let names: Vec<&str> = (0..19).map(|id| board[&id].as_str()).collect();
    assert_eq!(
        names,
        vec![
            "00", "01", "02", "10", "11", "12", "20", "21", "22", "B", "00", "01", "02", "10",
            "11", "12", "20", "21", "22"
        ]
    );
    assert_eq!(board.len(), 19);
}

#[test]
fn the_fitness_is_that_of_the_runs_one_after_the_other() {
    let experiment = RoadGameExperiment { squash: squash as fn(i64) -> i64 };
    let genome = experiment.initial_genome();
    for seed in [3usize, 7, 11] {
        let mut network = Network::from_genome(&genome);
        let fitness = experiment.evaluate_runs(&mut network, seed, 6, 40);
        let mut again = Network::from_genome(&genome);
        let mut rng = StdRng::from_seed(&[seed][..]);
        let mut steps = 0;
        for _ in 0..6 {
            let mut state = initial_state(rng.gen::<usize>());
            again.flush();
            let made = run_game(&mut state, &mut again, &(squash as fn(i64) -> i64), 40);
            assert!(1 <= made && made <= 40);
            assert!(made == 40 || state.hit_now);
            steps += made;
        }
        assert_eq!(fitness, road_fitness(steps, 6));
        assert_eq!(again.get_output(), network.get_output());
    }
}
