use rand::Rng;
use raphael::actions::Action;
use raphael::actions::Combo;
use raphael::effects::Effects;
use raphael::effects::SingleUse;
use raphael::mask::ActionMask;
use raphael::quality_upper_bound_solver::first_with_progress;
use raphael::quality_upper_bound_solver::progress_actions;
use raphael::quality_upper_bound_solver::quality_actions;
use raphael::quality_upper_bound_solver::reduce;
use raphael::quality_upper_bound_solver::search_actions;
use raphael::quality_upper_bound_solver::QualityUpperBoundSolver;
use raphael::quality_upper_bound_solver::SolverContext;
use raphael::pareto_front_builder::ParetoValue;
use raphael::reduced_state::ReducedState;
use raphael::settings::Settings;
use raphael::state::Condition;
use raphael::state::SimulationState;

// The number of reduced states grows quickly with the crafting points and
// with the moves allowed: with 360 points, 70 durability and every move it
// is about four million, more than a test can solve in its time. The random
// trials below keep to crafts that are solved within seconds.
fn settings(adversarial: bool) -> Settings {
    Settings {
        max_cp: 20,
        max_durability: 30,
        max_progress: 1000,
        max_quality: 20000,
        base_progress: 100,
        base_quality: 100,
        job_level: 100,
        allowed_actions: ActionMask::all()
            .remove(Action::HeartAndSoul)
            .remove(Action::QuickInnovation),
        adversarial,
    }
}

fn random_state(settings: &Settings) -> SimulationState {
    let mut rng = rand::thread_rng();
    const COMBOS: [Combo; 3] = [Combo::NoCombo, Combo::BasicTouch, Combo::StandardTouch];
    let used: bool = rng.gen();
    SimulationState {
        cp: rng.gen_range(0..=settings.max_cp),
        durability: rng.gen_range(1..=(settings.max_durability / 5)) * 5,
        progress: rng.gen_range(0..settings.max_progress as u32),
        unreliable_quality: [settings.max_quality; 2],
        effects: Effects::default()
            .with_inner_quiet(rng.gen_range(0..=10))
            .with_great_strides(rng.gen_range(0..=3))
            .with_innovation(rng.gen_range(0..=4))
            .with_veneration(rng.gen_range(0..=4))
            .with_waste_not(rng.gen_range(0..=8))
            .with_manipulation(rng.gen_range(0..=8))
            .with_quick_innovation(if used { SingleUse::Unavailable } else { SingleUse::Available })
            .with_guard(if settings.adversarial { rng.gen_range(0..=1) } else { 0 }),
        combo: COMBOS[rng.gen_range(0..3)],
    }
}

/// The bound of a state is never less than the bound of a state that one
/// move leads to, nor than the quality of a craft that one move completes.
fn monotonic_check(settings: Settings, rounds: usize) {
    let mut solver = QualityUpperBoundSolver::new(settings);
    let actions = settings.allowed_actions.actions_iter();
    for _ in 0..rounds {
        let state = random_state(&settings);
        let state_upper_bound = solver.quality_upper_bound(state);
        for action in actions.iter() {
            let child_upper_bound = match state.use_action(*action, Condition::Normal, &settings) {
                Ok(child) => match child.is_final(&settings) {
                    false => solver.quality_upper_bound(child),
                    true if child.progress >= settings.max_progress as u32 => child.get_quality(),
                    true => 0,
                },
                Err(_) => 0,
            };
            assert!(
                state_upper_bound >= child_upper_bound,
                "{:?} {:?} {} {}",
                state,
                action,
                state_upper_bound,
                child_upper_bound
            );
        }
    }
}

#[test]
fn bound_does_not_grow_along_a_move() {
    monotonic_check(settings(false), 10000);
}

#[test]
fn bound_does_not_grow_along_a_move_in_the_adversarial_model() {
    monotonic_check(settings(true), 10000);
}

fn random_state_with_few_credits(settings: &Settings) -> SimulationState {
    let mut rng = rand::thread_rng();
    const COMBOS: [Combo; 3] = [Combo::NoCombo, Combo::BasicTouch, Combo::StandardTouch];
    SimulationState {
        cp: rng.gen_range(0..=settings.max_cp),
        durability: rng.gen_range(1..=(settings.max_durability / 5)) * 5,
        progress: rng.gen_range(0..settings.max_progress as u32),
        unreliable_quality: [settings.max_quality; 2],
        effects: Effects::default()
            .with_inner_quiet(rng.gen_range(0..=10))
            .with_great_strides(rng.gen_range(0..=3))
            .with_innovation(rng.gen_range(0..=4))
            .with_veneration(rng.gen_range(0..=4))
            .with_waste_not(rng.gen_range(0..=1))
            .with_manipulation(rng.gen_range(0..=1))
            .with_quick_innovation(if rng.gen() {
                SingleUse::Unavailable
            } else {
                SingleUse::Available
            }),
        combo: COMBOS[rng.gen_range(0..3)],
    }
}

#[test]
fn bound_can_grow_when_heart_and_soul_pays_for_tricks_of_the_trade() {
    // The bound does not consider Tricks of the Trade: with Heart and Soul
    // in force the move refunds crafting points that the bound of the state
    // before it never counted.
    let settings = Settings {
        max_cp: 60,
        max_durability: 70,
        max_progress: 1000,
        max_quality: 20000,
        base_progress: 100,
        base_quality: 100,
        job_level: 100,
        allowed_actions: ActionMask::all(),
        adversarial: false,
    };
    let state = SimulationState {
        cp: 20,
        durability: 20,
        progress: 732,
        unreliable_quality: [20000, 20000],
        effects: Effects::default()
            .with_inner_quiet(7)
            .with_great_strides(3)
            .with_innovation(4)
            .with_veneration(4)
            .with_heart_and_soul(SingleUse::Active)
            .with_quick_innovation(SingleUse::Unavailable),
        combo: Combo::NoCombo,
    };
    let mut solver = QualityUpperBoundSolver::new(settings);
    let before = solver.quality_upper_bound(state);
    let child = state
        .use_action(Action::TricksOfTheTrade, Condition::Normal, &settings)
        .unwrap();
    assert_eq!(child.cp, 40);
    let after = solver.quality_upper_bound(child);
    assert_eq!((before, after), (21020, 21233));
}

#[test]
fn bound_does_not_grow_along_a_move_with_every_move_allowed() {
    let settings = Settings {
        max_cp: 20,
        max_durability: 70,
        max_progress: 1000,
        max_quality: 20000,
        base_progress: 100,
        base_quality: 100,
        job_level: 100,
        allowed_actions: ActionMask::all(),
        adversarial: false,
    };
    let mut solver = QualityUpperBoundSolver::new(settings);
    let actions = settings.allowed_actions.actions_iter();
    for _ in 0..3000 {
        let state = random_state_with_few_credits(&settings);
        let state_upper_bound = solver.quality_upper_bound(state);
        for action in actions.iter() {
            let child_upper_bound = match state.use_action(*action, Condition::Normal, &settings) {
                Ok(child) => match child.is_final(&settings) {
                    false => solver.quality_upper_bound(child),
                    true if child.progress >= settings.max_progress as u32 => child.get_quality(),
                    true => 0,
                },
                Err(_) => 0,
            };
            assert!(
                state_upper_bound >= child_upper_bound,
                "{:?} {:?} {} {}",
                state,
                action,
                state_upper_bound,
                child_upper_bound
            );
        }
    }
}

#[test]
fn bound_is_the_same_on_every_call() {
    let settings = Settings {
        max_cp: 200,
        max_durability: 60,
        max_progress: 1990,
        max_quality: 5000,
        base_progress: 100,
        base_quality: 100,
        job_level: 90,
        allowed_actions: ActionMask::from_level(90, true),
        adversarial: false,
    };
    let state = SimulationState::from_macro(&settings, &[Action::MuscleMemory]).unwrap();
    let first = QualityUpperBoundSolver::new(settings).quality_upper_bound(state);
    let mut solver = QualityUpperBoundSolver::new(settings);
    // other states first, so that the table is filled in another order
    for cp in [10, 150, 77] {
        let mut other = state;
        other.cp = cp;
        other.effects.inner_quiet = 4;
        solver.quality_upper_bound(other);
    }
    assert_eq!(solver.quality_upper_bound(state), first);
    assert_eq!(solver.quality_upper_bound(state), first);
}

#[test]
fn bound_is_zero_where_the_bar_cannot_be_filled() {
    let settings = Settings {
        max_cp: 30,
        max_durability: 10,
        max_progress: 60000,
        max_quality: 100,
        base_progress: 100,
        base_quality: 100,
        job_level: 90,
        allowed_actions: ActionMask::from_level(90, true),
        adversarial: false,
    };
    let state = SimulationState::new(&settings);
    assert_eq!(QualityUpperBoundSolver::new(settings).quality_upper_bound(state), 0);
}

#[test]
fn bound_is_held_at_twice_the_quality() {
    let settings = Settings {
        max_cp: 300,
        max_durability: 60,
        max_progress: 100,
        max_quality: 150,
        base_progress: 100,
        base_quality: 100,
        job_level: 90,
        allowed_actions: ActionMask::from_level(90, true),
        adversarial: false,
    };
    let state = SimulationState::new(&settings);
    assert_eq!(QualityUpperBoundSolver::new(settings).quality_upper_bound(state), 300);
}

#[test]
fn reduction_turns_buffs_and_durability_into_crafting_points() {
    let settings = Settings {
        max_cp: 500,
        max_durability: 70,
        max_progress: 2000,
        max_quality: 5000,
        base_progress: 100,
        base_quality: 100,
        job_level: 100,
        allowed_actions: ActionMask::from_level(100, true),
        adversarial: false,
    };
    // Immaculate Mend restores 65 of 70 for 112: 8 a unit; Waste Not II 12 a turn.
    let ctx = SolverContext { settings, base_durability_cost: 8, waste_not_cost: 12 };
    let mut state = SimulationState::new(&settings);
    state.cp = 100;
    state.durability = 35;
    state.effects = Effects::new().with_manipulation(3).with_waste_not(2).with_inner_quiet(5);
    let reduced = reduce(&ctx, &state);
    // 100 + 3 x 12 + 2 x 12 + 7 x 8 + 4 x 8 for Trained Perfection
    assert_eq!(reduced.cp, 100 + 36 + 24 + 56 + 32);
    assert_eq!(reduced.effects.manipulation, 0);
    assert_eq!(reduced.effects.waste_not, 0);
    assert_eq!(reduced.effects.inner_quiet, 5);
    assert_eq!(reduced.effects.trained_perfection, SingleUse::Unavailable);
    assert_eq!(reduced.combo, Combo::SynthesisBegin);
}

#[test]
fn reduction_owes_a_unit_for_durability_five_below_zero() {
    let settings = settings(false);
    let ctx = SolverContext { settings, base_durability_cost: 8, waste_not_cost: 12 };
    let mut state = SimulationState::new(&settings);
    state.cp = 100;
    state.effects = Effects::new().with_trained_perfection(SingleUse::Unavailable);
    state.durability = -5;
    assert_eq!(reduce(&ctx, &state).cp, 100 - 8);
    state.durability = -4;
    assert_eq!(reduce(&ctx, &state).cp, 100);
    state.durability = 0;
    assert_eq!(reduce(&ctx, &state).cp, 100);
    state.durability = 4;
    assert_eq!(reduce(&ctx, &state).cp, 100);
    state.durability = 5;
    assert_eq!(reduce(&ctx, &state).cp, 100 + 8);
}

#[test]
fn used_durability_is_paid_for_at_the_cheaper_price() {
    let settings = settings(false);
    let mut state = SimulationState::new(&settings);
    state.cp = 100;
    state.durability = i8::MAX;
    assert_eq!(ReducedState::from_state(state, 12, 12).cp, 100);
    state.durability = i8::MAX - 5;
    assert_eq!(ReducedState::from_state(state, 12, 12).cp, 100 - 12);
    state.durability = i8::MAX - 10;
    assert_eq!(ReducedState::from_state(state, 12, 12).cp, 100 - 24);
    // four units: two in full and Waste Not
    state.durability = i8::MAX - 20;
    assert_eq!(ReducedState::from_state(state, 12, 12).cp, 100 - 36);
    assert_eq!(ReducedState::from_state(state, 12, 50).cp, 100 - 48);
    let back = ReducedState::from_state(state, 12, 12).to_state();
    assert_eq!(back.durability, i8::MAX);
    assert_eq!(back.progress, 0);
}

#[test]
fn prices_follow_the_allowed_repairs() {
    let mut settings = settings(false);
    settings.allowed_actions = ActionMask::from_level(90, false);
    let solver = QualityUpperBoundSolver::new(settings);
    let _ = solver;
    assert!(search_actions().has(Action::TrainedPerfection));
    assert!(!search_actions().has(Action::MasterMend));
    assert!(!search_actions().has(Action::Manipulation));
    assert!(!search_actions().has(Action::TricksOfTheTrade));
    assert!(progress_actions().has(Action::Groundwork));
    assert!(!progress_actions().has(Action::BasicTouch));
    assert!(quality_actions().has(Action::Observe));
    assert!(quality_actions().has(Action::DelicateSynthesis));
    assert!(progress_actions().has(Action::DelicateSynthesis));
}

#[test]
fn first_point_with_enough_progress() {
    let front: Vec<ParetoValue> = vec![
        ParetoValue::new(10, 90),
        ParetoValue::new(20, 70),
        ParetoValue::new(35, 10),
    ];
    assert_eq!(first_with_progress(&front, 0), Some(ParetoValue::new(10, 90)));
    assert_eq!(first_with_progress(&front, 10), Some(ParetoValue::new(10, 90)));
    assert_eq!(first_with_progress(&front, 11), Some(ParetoValue::new(20, 70)));
    assert_eq!(first_with_progress(&front, 35), Some(ParetoValue::new(35, 10)));
    assert_eq!(first_with_progress(&front, 36), None);
    assert_eq!(first_with_progress(&vec![], 0), None);
}

#[test]
fn bound_does_not_fall_with_more_crafting_points() {
    let settings = Settings {
        max_cp: 150,
        max_durability: 40,
        max_progress: 1000,
        max_quality: 20000,
        base_progress: 100,
        base_quality: 100,
        job_level: 100,
        allowed_actions: ActionMask::all(),
        adversarial: false,
    };
    let mut solver = QualityUpperBoundSolver::new(settings);
    let mut state = SimulationState::new(&settings);
    state.combo = Combo::NoCombo;
    state.progress = 400;
    state.effects = Effects::new().with_inner_quiet(3).with_innovation(2);
    let mut last = 0;
    for cp in 0..=150 {
        state.cp = cp;
        let bound = solver.quality_upper_bound(state);
        assert!(bound >= last, "{} {} {}", cp, bound, last);
        last = bound;
    }
    assert!(last > 0);
}

#[test]
fn bound_does_not_grow_along_any_move_but_tricks_of_the_trade() {
    let settings = Settings {
        max_cp: 150,
        max_durability: 40,
        max_progress: 1000,
        max_quality: 20000,
        base_progress: 100,
        base_quality: 100,
        job_level: 100,
        allowed_actions: ActionMask::all(),
        adversarial: true,
    };
    let mut solver = QualityUpperBoundSolver::new(settings);
    let mut state = SimulationState::new(&settings);
    state.cp = 150;
    state.combo = Combo::BasicTouch;
    state.progress = 300;
    state.effects = Effects::new()
        .with_inner_quiet(10)
        .with_waste_not(3)
        .with_manipulation(2)
        .with_great_strides(1)
        .with_heart_and_soul(SingleUse::Active);
    let before = solver.quality_upper_bound(state);
    let mut followed = 0;
    for action in settings.allowed_actions.actions_iter() {
        if action == Action::TricksOfTheTrade {
            continue;
        }
        if let Ok(next) = state.use_action(action, Condition::Normal, &settings) {
            if !next.is_final(&settings) {
                followed += 1;
                let after = solver.quality_upper_bound(next);
                assert!(before >= after, "{:?} {} {}", action, before, after);
            }
        }
    }
    // every move of upkeep among them
    assert!(followed >= 16);
    for action in [
        Action::MasterMend,
        Action::ImmaculateMend,
        Action::Manipulation,
        Action::WasteNot,
        Action::WasteNot2,
        Action::TrainedPerfection,
    ] {
        let next = state.use_action(action, Condition::Normal, &settings).unwrap();
        assert!(!next.is_final(&settings));
        assert!(before >= solver.quality_upper_bound(next));
    }
}
