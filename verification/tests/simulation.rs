use raphael::actions::Action;
use raphael::actions::Combo;
use raphael::effects::Effects;
use raphael::effects::SingleUse;
use raphael::mask::ActionMask;
use raphael::settings::Settings;
use raphael::state::replay_outcome;
use raphael::state::ActionError;
use raphael::state::Condition;
use raphael::state::CraftState;
use raphael::state::SimulationState;

fn settings_at(level: u8) -> Settings {
    Settings {
        max_cp: 500,
        max_durability: 70,
        max_progress: 2000,
        max_quality: 5000,
        base_progress: 100,
        base_quality: 100,
        job_level: level,
        allowed_actions: ActionMask::from_level(level, true),
        adversarial: false,
    }
}

fn after(settings: &Settings, actions: &[Action]) -> SimulationState {
    SimulationState::from_macro(settings, actions).unwrap()
}

#[test]
fn initial_state_has_full_bars_and_no_buffs() {
    let settings = settings_at(90);
    let state = SimulationState::new(&settings);
    assert_eq!(state.cp, 500);
    assert_eq!(state.durability, 70);
    assert_eq!(state.progress, 0);
    assert_eq!(state.unreliable_quality, [0, 0]);
    assert_eq!(state.combo, Combo::SynthesisBegin);
    assert_eq!(state.effects, Effects::new());
    assert!(state.is_valid(&settings));
    assert!(!state.is_final(&settings));
}

#[test]
fn basic_synthesis_pays_durability_and_adds_progress() {
    let settings = settings_at(90);
    let state = after(&settings, &[Action::BasicSynthesis]);
    assert_eq!(state.progress, 120);
    assert_eq!(state.durability, 60);
    assert_eq!(state.cp, 500);
    assert_eq!(state.combo, Combo::NoCombo);
}

#[test]
fn basic_synthesis_is_weaker_below_level_31() {
    let settings = settings_at(30);
    let state = after(&settings, &[Action::BasicSynthesis]);
    assert_eq!(state.progress, 100);
}

#[test]
fn muscle_memory_and_veneration_multiply_progress() {
    let settings = settings_at(90);
    let state = after(&settings, &[Action::MuscleMemory, Action::Veneration]);
    assert_eq!(state.progress, 300);
    assert_eq!(state.effects.muscle_memory, 4);
    assert_eq!(state.effects.veneration, 4);
    assert_eq!(state.cp, 476);
    let state = state
        .use_action(Action::Groundwork, Condition::Normal, &settings)
        .unwrap();
    assert_eq!(state.progress, 1200);
    assert_eq!(state.effects.muscle_memory, 0);
    assert_eq!(state.effects.veneration, 3);
    assert_eq!(state.durability, 40);
    assert_eq!(state.cp, 458);
}

#[test]
fn inner_quiet_and_innovation_multiply_quality() {
    let settings = settings_at(90);
    let state = after(&settings, &[Action::Reflect]);
    assert_eq!(state.get_quality(), 300);
    assert_eq!(state.effects.inner_quiet, 2);
    let state = after(
        &settings,
        &[Action::Reflect, Action::Innovation, Action::BasicTouch],
    );
    assert_eq!(state.get_quality(), 480);
    assert_eq!(state.effects.inner_quiet, 3);
    assert_eq!(state.effects.innovation, 3);
    assert_eq!(state.combo, Combo::BasicTouch);
    let state = state
        .use_action(Action::ComboStandardTouch, Condition::Normal, &settings)
        .unwrap();
    // 125 % x 1.5 x 1.3 = 243.75, rounded down
    assert_eq!(state.get_quality(), 723);
    assert_eq!(state.effects.inner_quiet, 4);
    assert_eq!(state.cp, 440);
    assert_eq!(state.combo, Combo::StandardTouch);
}

#[test]
fn great_strides_is_spent_by_the_next_touch() {
    let settings = settings_at(90);
    let state = after(&settings, &[Action::GreatStrides, Action::BasicTouch]);
    assert_eq!(state.get_quality(), 200);
    assert_eq!(state.effects.great_strides, 0);
    let state = after(&settings, &[Action::GreatStrides, Action::Veneration]);
    assert_eq!(state.effects.great_strides, 2);
}

#[test]
fn byregots_blessing_spends_inner_quiet() {
    let settings = settings_at(90);
    let state = after(&settings, &[Action::Reflect, Action::ByregotsBlessing]);
    // 300 + (100 % + 2 x 20 %) x 1.2
    assert_eq!(state.get_quality(), 468);
    assert_eq!(state.effects.inner_quiet, 0);
}

#[test]
fn trained_eye_fills_the_quality_bar() {
    let settings = settings_at(90);
    let state = after(&settings, &[Action::TrainedEye]);
    assert_eq!(state.get_quality(), 5000);
    assert_eq!(state.cp, 250);
    assert_eq!(state.durability, 70);
}

#[test]
fn buff_is_written_after_the_turn_has_ticked() {
    let settings = settings_at(90);
    let state = after(&settings, &[Action::Innovation]);
    assert_eq!(state.effects.innovation, 4);
    let state = after(&settings, &[Action::Innovation, Action::Veneration]);
    assert_eq!(state.effects.innovation, 3);
    assert_eq!(state.effects.veneration, 4);
    let state = after(
        &settings,
        &[
            Action::Innovation,
            Action::Veneration,
            Action::Observe,
            Action::Observe,
            Action::Observe,
        ],
    );
    assert_eq!(state.effects.innovation, 0);
    assert_eq!(state.effects.veneration, 1);
}

#[test]
fn manipulation_restores_from_the_turn_after_it() {
    let settings = settings_at(90);
    let state = after(&settings, &[Action::BasicSynthesis, Action::Manipulation]);
    assert_eq!(state.durability, 60);
    assert_eq!(state.effects.manipulation, 8);
    let state = state
        .use_action(Action::BasicSynthesis, Condition::Normal, &settings)
        .unwrap();
    assert_eq!(state.durability, 55);
    assert_eq!(state.effects.manipulation, 7);
}

#[test]
fn manipulation_does_not_restore_beyond_the_maximum() {
    let settings = settings_at(90);
    let state = after(&settings, &[Action::Manipulation, Action::Observe]);
    assert_eq!(state.durability, 70);
}

#[test]
fn waste_not_halves_the_wear() {
    let settings = settings_at(90);
    let state = after(&settings, &[Action::WasteNot, Action::Groundwork]);
    assert_eq!(state.durability, 60);
    assert_eq!(state.effects.waste_not, 3);
    let state = after(&settings, &[Action::WasteNot2]);
    assert_eq!(state.effects.waste_not, 8);
}

#[test]
fn master_mend_restores_thirty() {
    let settings = settings_at(90);
    let state = after(
        &settings,
        &[
            Action::Groundwork,
            Action::Groundwork,
            Action::MasterMend,
        ],
    );
    assert_eq!(state.durability, 60);
    assert_eq!(state.cp, 500 - 18 - 18 - 88);
}

#[test]
fn immaculate_mend_restores_everything() {
    let settings = settings_at(100);
    let state = after(
        &settings,
        &[Action::Groundwork, Action::Groundwork, Action::ImmaculateMend],
    );
    assert_eq!(state.durability, 70);
}

#[test]
fn trained_perfection_saves_the_next_wear() {
    let settings = settings_at(100);
    let state = after(&settings, &[Action::TrainedPerfection]);
    assert_eq!(state.effects.trained_perfection, SingleUse::Active);
    let state = after(&settings, &[Action::TrainedPerfection, Action::Groundwork]);
    assert_eq!(state.durability, 70);
    assert_eq!(state.effects.trained_perfection, SingleUse::Unavailable);
}

#[test]
fn heart_and_soul_stands_in_for_a_good_condition() {
    let settings = settings_at(100);
    let state = after(&settings, &[Action::HeartAndSoul, Action::PreciseTouch]);
    assert_eq!(state.get_quality(), 150);
    assert_eq!(state.effects.inner_quiet, 2);
    assert_eq!(state.effects.heart_and_soul, SingleUse::Unavailable);
}

#[test]
fn good_condition_keeps_heart_and_soul() {
    let settings = settings_at(100);
    let state = after(&settings, &[Action::HeartAndSoul])
        .use_action(Action::IntensiveSynthesis, Condition::Good, &settings)
        .unwrap();
    assert_eq!(state.progress, 400);
    assert_eq!(state.effects.heart_and_soul, SingleUse::Active);
}

#[test]
fn quick_innovation_gives_one_turn() {
    let settings = settings_at(100);
    let state = after(&settings, &[Action::QuickInnovation]);
    assert_eq!(state.effects.innovation, 1);
    assert_eq!(state.effects.quick_innovation, SingleUse::Unavailable);
    assert_eq!(state.cp, 500);
}

#[test]
fn tricks_of_the_trade_refunds_up_to_the_maximum() {
    let settings = settings_at(90);
    let state = after(&settings, &[Action::Observe])
        .use_action(Action::TricksOfTheTrade, Condition::Good, &settings)
        .unwrap();
    assert_eq!(state.cp, 500);
    let state = after(&settings, &[Action::GreatStrides])
        .use_action(Action::TricksOfTheTrade, Condition::Good, &settings)
        .unwrap();
    assert_eq!(state.cp, 488);
}

#[test]
fn conditions_scale_quality() {
    let settings = settings_at(90);
    let start = SimulationState::new(&settings);
    let quality = |condition: Condition| {
        start
            .use_action(Action::BasicTouch, condition, &settings)
            .unwrap()
            .get_quality()
    };
    assert_eq!(quality(Condition::Normal), 100);
    assert_eq!(quality(Condition::Good), 150);
    assert_eq!(quality(Condition::Excellent), 400);
    assert_eq!(quality(Condition::Poor), 50);
}

#[test]
fn observe_opens_the_advanced_touch_follow_up() {
    let settings = settings_at(90);
    let state = after(&settings, &[Action::Observe, Action::ComboAdvancedTouch]);
    assert_eq!(state.get_quality(), 150);
    assert_eq!(state.cp, 500 - 7 - 18);
}

#[test]
fn refined_touch_in_combo_adds_two_stacks() {
    let settings = settings_at(100);
    let state = after(&settings, &[Action::BasicTouch, Action::ComboRefinedTouch]);
    assert_eq!(state.effects.inner_quiet, 3);
    let state = after(&settings, &[Action::BasicTouch, Action::RefinedTouch]);
    assert_eq!(state.effects.inner_quiet, 2);
}

#[test]
fn last_move_may_overdraw_durability_by_five() {
    let settings = settings_at(90);
    let mut state = SimulationState::new(&settings);
    state.durability = 5;
    let next = state
        .use_action(Action::BasicSynthesis, Condition::Normal, &settings)
        .unwrap();
    assert_eq!(next.durability, -5);
    assert!(next.is_final(&settings));
    // a final state is returned as soon as the costs are paid
    assert_eq!(next.effects, state.effects);
}

#[test]
fn craft_ends_when_the_bar_is_full() {
    let mut settings = settings_at(90);
    settings.max_progress = 300;
    let state = after(&settings, &[Action::MuscleMemory]);
    assert_eq!(state.progress, 300);
    assert!(state.is_final(&settings));
    settings.max_progress = 250;
    let state = after(&settings, &[Action::MuscleMemory]);
    assert_eq!(state.progress, 250);
}

#[test]
fn rejects_what_is_not_allowed() {
    let settings = settings_at(90);
    let state = SimulationState::new(&settings);
    assert_eq!(
        state
            .use_action(Action::ImmaculateMend, Condition::Normal, &settings)
            .unwrap_err(),
        ActionError::NotUnlocked
    );
}

#[test]
fn rejects_a_follow_up_without_its_opener() {
    let settings = settings_at(90);
    let state = SimulationState::new(&settings);
    assert_eq!(
        state
            .use_action(Action::ComboStandardTouch, Condition::Normal, &settings)
            .unwrap_err(),
        ActionError::BadCombo
    );
    let state = after(&settings, &[Action::BasicSynthesis]);
    assert_eq!(
        state
            .use_action(Action::MuscleMemory, Condition::Normal, &settings)
            .unwrap_err(),
        ActionError::BadCombo
    );
}

#[test]
fn rejects_a_spent_token() {
    let settings = settings_at(100);
    let state = after(&settings, &[Action::TrainedPerfection]);
    assert_eq!(
        state
            .use_action(Action::TrainedPerfection, Condition::Normal, &settings)
            .unwrap_err(),
        ActionError::SingleUseExhausted
    );
}

#[test]
fn rejects_what_costs_too_many_crafting_points() {
    let settings = settings_at(90);
    let mut state = SimulationState::new(&settings);
    state.cp = 31;
    assert_eq!(
        state
            .use_action(Action::StandardTouch, Condition::Normal, &settings)
            .unwrap_err(),
        ActionError::InsufficientCP
    );
    state.cp = 32;
    assert!(state
        .use_action(Action::StandardTouch, Condition::Normal, &settings)
        .is_ok());
}

#[test]
fn rejects_what_would_break_the_item_by_more_than_five() {
    let settings = settings_at(90);
    let mut state = SimulationState::new(&settings);
    state.durability = 10;
    assert_eq!(
        state
            .use_action(Action::PreparatoryTouch, Condition::Normal, &settings)
            .unwrap_err(),
        ActionError::InsufficientDurability
    );
    state.durability = 15;
    assert!(state
        .use_action(Action::PreparatoryTouch, Condition::Normal, &settings)
        .is_ok());
    state.durability = 0;
    assert_eq!(
        state
            .use_action(Action::Observe, Condition::Normal, &settings)
            .unwrap_err(),
        ActionError::InsufficientDurability
    );
}

#[test]
fn rejects_what_the_buffs_do_not_admit() {
    let settings = settings_at(90);
    let start = SimulationState::new(&settings);
    assert_eq!(
        start
            .use_action(Action::ByregotsBlessing, Condition::Normal, &settings)
            .unwrap_err(),
        ActionError::WrongClassOfAction
    );
    assert_eq!(
        start
            .use_action(Action::IntensiveSynthesis, Condition::Normal, &settings)
            .unwrap_err(),
        ActionError::WrongClassOfAction
    );
    assert_eq!(
        start
            .use_action(Action::TrainedFinesse, Condition::Normal, &settings)
            .unwrap_err(),
        ActionError::WrongClassOfAction
    );
    let wasteful = after(&settings, &[Action::WasteNot]);
    assert_eq!(
        wasteful
            .use_action(Action::PrudentTouch, Condition::Normal, &settings)
            .unwrap_err(),
        ActionError::WrongClassOfAction
    );
}

#[test]
fn first_failing_check_wins() {
    let settings = settings_at(90);
    let mut state = after(&settings, &[Action::BasicSynthesis]);
    state.cp = 0;
    state.durability = 0;
    // not allowed, before anything else
    assert_eq!(
        state
            .use_action(Action::TrainedPerfection, Condition::Normal, &settings)
            .unwrap_err(),
        ActionError::NotUnlocked
    );
    // combo before crafting points
    assert_eq!(
        state
            .use_action(Action::ComboStandardTouch, Condition::Normal, &settings)
            .unwrap_err(),
        ActionError::BadCombo
    );
    // crafting points before durability
    assert_eq!(
        state
            .use_action(Action::BasicTouch, Condition::Normal, &settings)
            .unwrap_err(),
        ActionError::InsufficientCP
    );
    // durability before the buffs
    assert_eq!(
        state
            .use_action(Action::BasicSynthesis, Condition::Normal, &settings)
            .unwrap_err(),
        ActionError::InsufficientDurability
    );
}

#[test]
fn macro_stops_at_the_first_rejection() {
    let settings = settings_at(90);
    let result = SimulationState::from_macro(
        &settings,
        &[Action::BasicTouch, Action::ByregotsBlessing, Action::MuscleMemory],
    );
    assert_eq!(result.unwrap_err(), ActionError::BadCombo);
}

#[test]
fn adversarial_quality_counts_the_worst_strike() {
    let mut settings = Settings {
        max_cp: 553,
        max_durability: 70,
        max_progress: 2400,
        max_quality: 20000,
        base_progress: 100,
        base_quality: 100,
        job_level: 90,
        allowed_actions: ActionMask::from_level(90, true),
        adversarial: true,
    };
    let actions = [
        Action::MuscleMemory,
        Action::PrudentTouch,
        Action::Manipulation,
        Action::Veneration,
        Action::WasteNot2,
        Action::Groundwork,
        Action::Groundwork,
        Action::Groundwork,
        Action::PreparatoryTouch,
    ];
    let state = after(&settings, &actions);
    assert_eq!(state.get_quality(), 210);
    assert_eq!(state.unreliable_quality, [210, 270]);
    settings.adversarial = false;
    let state = after(&settings, &actions);
    assert_eq!(state.get_quality(), 320);
    assert_eq!(state.unreliable_quality, [320, 320]);
}

#[test]
fn adversarial_strike_is_followed_by_a_guarded_turn() {
    let settings = Settings {
        max_cp: 617,
        max_durability: 60,
        max_progress: 2120,
        max_quality: 5000,
        base_progress: 100,
        base_quality: 100,
        job_level: 90,
        allowed_actions: ActionMask::from_level(90, true),
        adversarial: true,
    };
    let state = after(&settings, &[Action::BasicSynthesis, Action::BasicTouch]);
    assert_eq!(state.effects.guard, 1);
    assert_eq!(state.unreliable_quality, [50, 100]);
    let state = state
        .use_action(Action::ComboStandardTouch, Condition::Normal, &settings)
        .unwrap();
    // the guarded touch counts in full in both
    assert_eq!(state.unreliable_quality, [50 + 137, 100 + 137]);
    assert_eq!(state.effects.guard, 0);
    let state = after(
        &settings,
        &[
            Action::MuscleMemory,
            Action::Manipulation,
            Action::Veneration,
            Action::WasteNot,
            Action::Groundwork,
            Action::CarefulSynthesis,
            Action::Groundwork,
            Action::PreparatoryTouch,
            Action::Innovation,
            Action::BasicTouch,
            Action::ComboStandardTouch,
        ],
    );
    assert_eq!(state.get_quality(), 523);
}

#[test]
fn first_turn_is_guarded_in_the_adversarial_model() {
    let mut settings = settings_at(90);
    settings.adversarial = true;
    let state = SimulationState::new(&settings);
    assert_eq!(state.effects.guard, 1);
    let state = after(&settings, &[Action::Reflect]);
    assert_eq!(state.unreliable_quality, [300, 300]);
}

#[test]
fn every_applicable_move_keeps_the_state_valid() {
    for level in [10u8, 50, 90, 100] {
        for adversarial in [false, true] {
            let mut settings = settings_at(level);
            settings.adversarial = adversarial;
            let all: Vec<Action> = ActionMask::all().actions_iter();
            let mut frontier = vec![SimulationState::new(&settings)];
            for _ in 0..3 {
                let mut next = Vec::new();
                for state in frontier.iter() {
                    for action in all.iter() {
                        for condition in [Condition::Normal, Condition::Good, Condition::Poor] {
                            if let Ok(child) = state.use_action(*action, condition, &settings) {
                                assert!(child.is_valid(&settings));
                                assert!(child.cp >= 0);
                                assert!(child.durability >= -5);
                                assert!(child.effects.is_valid());
                                if condition == Condition::Normal && !child.is_final(&settings) {
                                    next.push(child);
                                }
                            }
                        }
                    }
                }
                frontier = next;
            }
        }
    }
}

#[test]
fn replay_of_no_move_is_the_craft_at_its_start() {
    let settings = settings_at(90);
    match replay_outcome(&settings, &[]) {
        CraftState::InProgress(state) => {
            assert_eq!((state.cp, state.durability, state.progress), (500, 70, 0));
        }
        _ => panic!("a craft that has not begun goes on"),
    }
}

#[test]
fn replay_tells_a_craft_that_goes_on_from_one_that_is_done() {
    let mut settings = settings_at(90);
    settings.max_progress = 240;
    match replay_outcome(&settings, &[Action::BasicSynthesis]) {
        CraftState::InProgress(state) => {
            assert_eq!((state.progress, state.durability), (120, 60));
        }
        _ => panic!("one synthesis does not fill the bar"),
    }
    match replay_outcome(&settings, &[Action::BasicSynthesis, Action::BasicSynthesis]) {
        CraftState::Completed(state) => {
            assert_eq!((state.progress, state.durability), (240, 50));
        }
        _ => panic!("two syntheses fill the bar"),
    }
}

#[test]
fn replay_tells_a_broken_item() {
    let mut settings = settings_at(90);
    settings.max_durability = 20;
    match replay_outcome(&settings, &[Action::BasicTouch, Action::BasicTouch]) {
        CraftState::Failed(state) => {
            assert_eq!((state.progress, state.durability), (0, 0));
        }
        _ => panic!("two touches use up twenty durability"),
    }
}

#[test]
fn replay_is_invalid_after_a_rejected_move_or_after_the_end() {
    let mut settings = settings_at(90);
    settings.max_progress = 120;
    // the follow-up without its opener is rejected
    assert!(matches!(
        replay_outcome(&settings, &[Action::StandardTouch, Action::ComboStandardTouch]),
        CraftState::Invalid
    ));
    // the bar is full after the first move: a second one has no place
    assert!(matches!(
        replay_outcome(&settings, &[Action::BasicSynthesis]),
        CraftState::Completed(_)
    ));
    assert!(matches!(
        replay_outcome(&settings, &[Action::BasicSynthesis, Action::BasicTouch]),
        CraftState::Invalid
    ));
    // the same second move is made where the craft still goes on
    settings.max_progress = 2000;
    assert!(matches!(
        replay_outcome(&settings, &[Action::BasicSynthesis, Action::BasicTouch]),
        CraftState::InProgress(_)
    ));
}
