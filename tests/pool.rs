use fourai::game::Spot;
use fourai::nn::{check_structure, layer_shapes, Activation, ConfigError};
use fourai::pool::{
    continues, game_score, generation_step, get_fitness, is_due, plan_offspring, select_survivors,
    start_generation, tournament_deltas, Offspring, PoolSettings, SettingsError,
};
use fourai::random_player::RandomPlayer;
use fourai::game::Board;

#[test]
fn game_scores() {
    assert_eq!((1, -1), game_score(Spot::RED));
    assert_eq!((-1, 1), game_score(Spot::YELLOW));
    assert_eq!((0, 0), game_score(Spot::EMPTY));
}

#[test]
fn pairing_scores_cancel_out() {
    let spots = [Spot::RED, Spot::YELLOW, Spot::EMPTY];
    for a in spots.iter() {
        for b in spots.iter() {
            let (x, y) = get_fitness(*a, *b);
            assert_eq!(x, -y);
        }
    }
    // each side wins once as the first player
    assert_eq!((0, 0), get_fitness(Spot::RED, Spot::RED));
    // the first agent wins both games
    assert_eq!((2, -2), get_fitness(Spot::RED, Spot::YELLOW));
    // the second agent wins both games
    assert_eq!((-2, 2), get_fitness(Spot::YELLOW, Spot::RED));
    assert_eq!((1, -1), get_fitness(Spot::RED, Spot::EMPTY));
}

#[test]
fn tournament_of_three() {
    // Agent 0 always wins, agent 2 always loses, games between 0 and 1 as
    // first players; everything else is a draw.
    let n = 3;
    let mut results = vec![(Spot::EMPTY, Spot::EMPTY); n * n];
    results[0 * n + 1] = (Spot::RED, Spot::YELLOW);
    results[1 * n + 0] = (Spot::YELLOW, Spot::RED);
    results[0 * n + 2] = (Spot::RED, Spot::YELLOW);
    results[2 * n + 0] = (Spot::YELLOW, Spot::RED);
    results[1 * n + 2] = (Spot::EMPTY, Spot::EMPTY);
    results[2 * n + 1] = (Spot::EMPTY, Spot::EMPTY);
    let deltas = tournament_deltas(n, &results);
    assert_eq!(vec![8, -4, -4], deltas);
    assert_eq!(0, deltas.iter().sum::<i64>());
}

#[test]
fn survivors_best_first_ties_by_place() {
    let fitness = vec![3, 9, -1, 9, 3];
    assert_eq!(vec![1, 3, 0], select_survivors(&fitness, 3));
    assert_eq!(vec![1, 3, 0, 4, 2], select_survivors(&fitness, 5));
    assert_eq!(Vec::<usize>::new(), select_survivors(&fitness, 0));
}

#[test]
fn plan_keeps_crosses_then_replicates() {
    let plan = plan_offspring(&vec![7, 2, 5], 4, 10);
    assert_eq!(
        vec![
            Offspring::Keep(7),
            Offspring::Keep(2),
            Offspring::Keep(5),
            Offspring::Cross(7, 2),
            Offspring::Cross(7, 5),
            Offspring::Cross(2, 7),
            Offspring::Cross(2, 5),
            Offspring::Replicate(7),
            Offspring::Replicate(2),
            Offspring::Replicate(5),
        ],
        plan
    );
}

#[test]
fn plan_crosses_bounded_by_pairs() {
    let plan = plan_offspring(&vec![0, 1], 30, 6);
    assert_eq!(
        vec![
            Offspring::Keep(0),
            Offspring::Keep(1),
            Offspring::Cross(0, 1),
            Offspring::Cross(1, 0),
            Offspring::Replicate(0),
            Offspring::Replicate(1),
        ],
        plan
    );
    let single = plan_offspring(&vec![4], 30, 3);
    assert_eq!(vec![Offspring::Keep(4), Offspring::Replicate(4), Offspring::Replicate(4)], single);
}

#[test]
fn generation_step_keeps_survivors() {
    let settings = PoolSettings {
        surviving_amount: 2,
        crossover_size: 1,
        population_size: 4,
        generations: 10,
        save_interval: 5,
        compare_interval: -1,
    };
    let step = generation_step(5, &vec![0, 4, -2, 7], &settings);
    assert_eq!(vec![3, 1], step.survivors);
    assert_eq!(
        vec![Offspring::Keep(3), Offspring::Keep(1), Offspring::Cross(3, 1), Offspring::Replicate(3)],
        step.offspring
    );
    assert!(step.save);
    assert!(!step.compare);
    for s in step.survivors.iter() {
        assert!(step.offspring.contains(&Offspring::Keep(*s)));
    }
}

#[test]
fn settings_checked() {
    let mut settings = PoolSettings {
        surviving_amount: 5,
        crossover_size: 30,
        population_size: 200,
        generations: -1,
        save_interval: 250,
        compare_interval: 100,
    };
    assert_eq!(Ok(()), settings.check());
    settings.surviving_amount = 0;
    assert_eq!(Err(SettingsError::NoSurvivors), settings.check());
    settings.surviving_amount = 201;
    assert_eq!(Err(SettingsError::TooManySurvivors), settings.check());
}

#[test]
fn schedule() {
    assert!(!is_due(0, 5));
    assert!(is_due(10, 5));
    assert!(!is_due(11, 5));
    assert!(!is_due(10, -1));
    assert!(!is_due(10, 0));
    assert!(continues(1000, -1));
    assert!(continues(9, 10));
    assert!(!continues(10, 10));
    assert_eq!(0, start_generation(None));
    assert_eq!(250, start_generation(Some((3, 250))));
}

#[test]
fn resumed_run_keeps_population_size() {
    // A fresh generation and one bred from a loaded checkpoint of a
    // different size both hold the configured population.
    let fresh = plan_offspring(&vec![0, 1, 2], 3, 8);
    let resumed = plan_offspring(&vec![0, 1, 2, 3, 4], 3, 8);
    assert_eq!(8, fresh.len());
    assert_eq!(8, resumed.len());
    let gens: Vec<usize> = (0..5).filter(|g| continues(*g, 5)).chain((5..8).filter(|g| continues(*g, 8))).collect();
    let whole: Vec<usize> = (0..8).filter(|g| continues(*g, 8)).collect();
    assert_eq!(whole, gens);
}

#[test]
fn structures_checked() {
    assert_eq!(Ok(()), check_structure(&vec![42, 128, 7], 2));
    assert_eq!(Err(ConfigError::ActivationCount), check_structure(&vec![42, 128, 7], 3));
    assert_eq!(Err(ConfigError::ActivationCount), check_structure(&vec![], 0));
    assert_eq!(Err(ConfigError::InputWidth), check_structure(&vec![40, 7], 1));
    assert_eq!(Err(ConfigError::OutputWidth), check_structure(&vec![42, 6], 1));
    assert_eq!(vec![(128, 43), (256, 129), (7, 257)], layer_shapes(&vec![42, 128, 256, 7]));
}

#[test]
fn activation_names() {
    assert_eq!(Some(Activation::Sigmoid), Activation::parse("sigmoid"));
    assert_eq!(Some(Activation::ELU), Activation::parse("elu"));
    assert_eq!(Some(Activation::RELU), Activation::parse("relu"));
    assert_eq!(None, Activation::parse("tanh"));
    assert_eq!(None, Activation::parse("Relu"));
    assert_eq!(Activation::ELU, Activation::from_string("elu"));
}

#[test]
fn random_player_reference_preferences() {
    let p = RandomPlayer::new();
    assert_eq!(vec![0u8, 1, 2, 3, 4, 5, 6], p.get_move(&Board::new()));
}
