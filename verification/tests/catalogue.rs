use raphael::actions::Action;
use raphael::actions::ACTION_COUNT;
use raphael::effects::Effects;
use raphael::effects::SingleUse;
use raphael::mask::ActionMask;
use raphael::reduced_state::ReducedState;
use raphael::actions::Combo;

#[test]
fn identifiers_follow_the_catalogue() {
    assert_eq!(Action::BasicSynthesis.id(), 0);
    assert_eq!(Action::TrainedPerfection.id(), ACTION_COUNT - 1);
    for id in 0..ACTION_COUNT {
        let action = Action::from_id(id).unwrap();
        assert_eq!(action.id(), id);
    }
    assert_eq!(Action::from_id(ACTION_COUNT), None);
    assert_eq!(Action::from_id(255), None);
}

#[test]
fn costs_of_some_moves() {
    assert_eq!(Action::MasterMend.cp_cost(), 88);
    assert_eq!(Action::Manipulation.cp_cost(), 96);
    assert_eq!(Action::ImmaculateMend.cp_cost(), 112);
    assert_eq!(Action::WasteNot.cp_cost(), 56);
    assert_eq!(Action::WasteNot2.cp_cost(), 98);
    assert_eq!(Action::StandardTouch.cp_cost(), 32);
    assert_eq!(Action::ComboStandardTouch.cp_cost(), 18);
    assert_eq!(Action::AdvancedTouch.cp_cost(), 46);
    assert_eq!(Action::ComboAdvancedTouch.cp_cost(), 18);
    assert_eq!(Action::TrainedEye.cp_cost(), 250);
    assert_eq!(Action::Groundwork.base_durability_cost(), 20);
    assert_eq!(Action::PrudentTouch.base_durability_cost(), 5);
    assert_eq!(Action::Observe.base_durability_cost(), 0);
}

#[test]
fn efficiency_grows_with_the_job_level() {
    assert_eq!(Action::CarefulSynthesis.progress_efficiency(81), 150);
    assert_eq!(Action::CarefulSynthesis.progress_efficiency(82), 180);
    assert_eq!(Action::Groundwork.progress_efficiency(85), 300);
    assert_eq!(Action::Groundwork.progress_efficiency(86), 360);
    assert_eq!(Action::DelicateSynthesis.progress_efficiency(93), 100);
    assert_eq!(Action::DelicateSynthesis.progress_efficiency(94), 150);
    assert_eq!(Action::ByregotsBlessing.quality_efficiency(10), 300);
    assert_eq!(Action::ByregotsBlessing.quality_efficiency(0), 100);
    assert_eq!(Action::BasicTouch.progress_efficiency(90), 0);
    assert_eq!(Action::BasicSynthesis.quality_efficiency(3), 0);
}

#[test]
fn names_and_waits_for_macros() {
    assert_eq!(Action::BasicSynthesis.display_name(), "Basic Synthesis");
    assert_eq!(Action::MasterMend.display_name(), "Master's Mend");
    assert_eq!(Action::ComboStandardTouch.display_name(), "Standard Touch");
    assert_eq!(Action::WasteNot2.display_name(), "Waste Not II");
    assert_eq!(Action::BasicSynthesis.time_cost(), 3);
    assert_eq!(Action::Veneration.time_cost(), 2);
    assert_eq!(Action::Manipulation.time_cost(), 2);
    for id in 0..ACTION_COUNT {
        let cost = Action::from_id(id).unwrap().time_cost();
        assert!(cost == 2 || cost == 3);
    }
}

#[test]
fn mask_of_a_level_holds_what_the_level_unlocks() {
    let mask = ActionMask::from_level(53, true);
    assert!(mask.has(Action::BasicSynthesis));
    assert!(mask.has(Action::PreciseTouch));
    assert!(!mask.has(Action::MuscleMemory));
    assert!(!mask.has(Action::Manipulation));
    let mask = ActionMask::from_level(65, false);
    assert!(!mask.has(Action::Manipulation));
    let mask = ActionMask::from_level(65, true);
    assert!(mask.has(Action::Manipulation));
    let mask = ActionMask::from_level(100, true);
    assert_eq!(mask, ActionMask::all());
    assert_eq!(mask.actions_iter().len(), ACTION_COUNT as usize);
}

#[test]
fn mask_operations() {
    let none = ActionMask::none();
    assert!(!none.has(Action::BasicTouch));
    let one = none.add(Action::BasicTouch);
    assert!(one.has(Action::BasicTouch));
    assert!(!one.has(Action::BasicSynthesis));
    assert_eq!(one.add(Action::BasicTouch), one);
    assert_eq!(one.remove(Action::BasicTouch), none);
    assert_eq!(one.remove(Action::Observe), one);
    let two = none.add(Action::Observe).add(Action::TrainedPerfection);
    let union = one.union(two);
    assert!(union.has(Action::BasicTouch) && union.has(Action::Observe));
    assert!(union.has(Action::TrainedPerfection));
    assert_eq!(union.intersection(two), two);
    assert_eq!(one.intersection(two), none);
}

#[test]
fn mask_hands_its_members_out_in_ascending_order() {
    let mask = ActionMask::none()
        .add(Action::TrainedPerfection)
        .add(Action::BasicTouch)
        .add(Action::Groundwork)
        .add(Action::BasicSynthesis);
    assert_eq!(
        mask.actions_iter(),
        vec![
            Action::BasicSynthesis,
            Action::BasicTouch,
            Action::Groundwork,
            Action::TrainedPerfection
        ]
    );
    assert_eq!(ActionMask::none().actions_iter(), vec![]);
}

#[test]
fn effects_tick_down_to_zero() {
    let effects = Effects::new()
        .with_inner_quiet(7)
        .with_great_strides(3)
        .with_innovation(1)
        .with_veneration(0)
        .with_muscle_memory(5)
        .with_waste_not(8)
        .with_manipulation(2)
        .with_guard(1);
    let ticked = effects.tick_down();
    assert_eq!(ticked.inner_quiet, 7);
    assert_eq!(ticked.great_strides, 2);
    assert_eq!(ticked.innovation, 0);
    assert_eq!(ticked.veneration, 0);
    assert_eq!(ticked.muscle_memory, 4);
    assert_eq!(ticked.waste_not, 7);
    assert_eq!(ticked.manipulation, 1);
    assert_eq!(ticked.guard, 0);
    assert_eq!(ticked.trained_perfection, SingleUse::Available);
}

#[test]
fn effects_pack_into_thirty_bits() {
    assert_eq!(Effects::new().to_bits(), 0);
    assert_eq!(Effects::new().with_inner_quiet(10).to_bits(), 10);
    assert_eq!(Effects::new().with_great_strides(3).to_bits(), 3 << 4);
    assert_eq!(Effects::new().with_innovation(4).to_bits(), 4 << 6);
    assert_eq!(Effects::new().with_veneration(4).to_bits(), 4 << 9);
    assert_eq!(Effects::new().with_muscle_memory(5).to_bits(), 5 << 12);
    assert_eq!(Effects::new().with_waste_not(8).to_bits(), 8 << 15);
    assert_eq!(Effects::new().with_manipulation(8).to_bits(), 8 << 19);
    assert_eq!(Effects::new().with_guard(1).to_bits(), 1 << 23);
    assert_eq!(
        Effects::new()
            .with_trained_perfection(SingleUse::Active)
            .to_bits(),
        1 << 24
    );
    assert_eq!(
        Effects::new()
            .with_heart_and_soul(SingleUse::Unavailable)
            .to_bits(),
        2 << 26
    );
    assert_eq!(
        Effects::new()
            .with_quick_innovation(SingleUse::Unavailable)
            .to_bits(),
        2 << 28
    );
    assert!(!Effects::new().with_inner_quiet(11).is_valid());
    assert!(Effects::new().with_inner_quiet(10).is_valid());
}

#[test]
fn reduced_states_have_distinct_keys() {
    let base = ReducedState { cp: 100, combo: Combo::NoCombo, effects: Effects::new() };
    let mut keys = vec![base.key()];
    keys.push(ReducedState { cp: 101, ..base }.key());
    keys.push(ReducedState { cp: -1, ..base }.key());
    keys.push(ReducedState { combo: Combo::BasicTouch, ..base }.key());
    keys.push(ReducedState { effects: Effects::new().with_inner_quiet(1), ..base }.key());
    keys.push(
        ReducedState {
            effects: Effects::new().with_quick_innovation(SingleUse::Unavailable),
            ..base
        }
        .key(),
    );
    let mut unique = keys.clone();
    unique.sort();
    unique.dedup();
    assert_eq!(unique.len(), keys.len());
    assert_eq!(base.key(), 0x8064u64 << 32);
}
