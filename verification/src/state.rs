use vstd::prelude::*;
use crate::actions::Action;
use crate::actions::Combo;
use crate::effects::Effects;
use crate::effects::SingleUse;
use crate::settings::Settings;

verus! {

/// The condition of the material on one turn.
#[derive(Clone, Copy, Debug, PartialEq, Eq, Structural, Hash)]
pub enum Condition {
    Normal,
    Good,
    Excellent,
    Poor,
}

impl Condition {
    /// What a touch yields under the condition, in percent.
    pub open spec fn spec_quality_percent(self) -> u64 {
        match self {
            Condition::Normal => 100u64,
            Condition::Good => 150u64,
            Condition::Excellent => 400u64,
            Condition::Poor => 50u64,
        }
    }

    pub fn quality_percent(self) -> (r: u64)
        ensures
            r == self.spec_quality_percent(),
    {
        match self {
            Condition::Normal => 100u64,
            Condition::Good => 150u64,
            Condition::Excellent => 400u64,
            Condition::Poor => 50u64,
        }
    }

    /// Good and Excellent open the moves that need a favourable condition.
    pub open spec fn spec_is_favourable(self) -> bool {
        self == Condition::Good || self == Condition::Excellent
    }

    pub fn is_favourable(self) -> (r: bool)
        ensures
            r == self.spec_is_favourable(),
    {
        match self {
            Condition::Good | Condition::Excellent => true,
            _ => false,
        }
    }
}

/// Why a move cannot be made.
#[derive(Clone, Copy, Debug, PartialEq, Eq, Structural, Hash)]
pub enum ActionError {
    /// The move is not among the allowed ones.
    NotUnlocked,
    /// The move needs another move before it.
    BadCombo,
    /// The move costs more crafting points than are left.
    InsufficientCP,
    /// The item is broken already, or the move would take it below -5.
    InsufficientDurability,
    /// The move's token is spent or in force.
    SingleUseExhausted,
    /// The buffs or the condition do not admit a move of this kind.
    WrongClassOfAction,
}

/// A craft in progress, or one that has just ended.
#[derive(Clone, Copy, Debug)]
pub struct SimulationState {
    pub cp: i16,
    pub durability: i8,
    pub progress: u32,
    /// Quality under the worst case of the conditions: at index 0 the least
    /// that is certain, at index 1 what holds if the last exposed touch was
    /// spared. Outside the adversarial model the two agree.
    pub unreliable_quality: [u16; 2],
    pub effects: Effects,
    pub combo: Combo,
}

/// Durability that the move costs under the buffs in force: nothing under
/// Trained Perfection, half under Waste Not.
pub open spec fn spec_durability_cost(action: Action, effects: Effects) -> i8 {
    let base = action.spec_base_durability_cost();
    if base == 0 || effects.trained_perfection == SingleUse::Active {
        0i8
    } else if effects.waste_not > 0 {
        ((base + 1) / 2) as i8
    } else {
        base
    }
}

pub fn durability_cost(action: Action, effects: &Effects) -> (r: i8)
    ensures
        r == spec_durability_cost(action, *effects),
        0 <= r <= 20,
{
    let base = action.base_durability_cost();
    let perfect = match effects.trained_perfection {
        SingleUse::Active => true,
        _ => false,
    };
    if base == 0 || perfect {
        0
    } else if effects.waste_not > 0 {
        (base + 1) / 2
    } else {
        base
    }
}

/// Percent by which the buffs multiply progress: Muscle Memory adds 100,
/// Veneration 50.
pub open spec fn spec_progress_multiplier(effects: Effects) -> u64 {
    (100 + (if effects.muscle_memory > 0 {
        100int
    } else {
        0
    }) + (if effects.veneration > 0 {
        50int
    } else {
        0
    })) as u64
}

/// Progress that the move adds: the base progress times the move's
/// efficiency times the buffs, rounded down once.
pub open spec fn spec_progress_increase(action: Action, settings: Settings, effects: Effects) -> u32 {
    (settings.base_progress as int * action.spec_progress_efficiency(settings.job_level) as int
        * spec_progress_multiplier(effects) as int / 10000) as u32
}

pub fn progress_increase(action: Action, settings: &Settings, effects: &Effects) -> (r: u32)
    ensures
        r == spec_progress_increase(action, *settings, *effects),
        r <= 655350,
{
    let mut multiplier: u64 = 100;
    if effects.muscle_memory > 0 {
        multiplier += 100;
    }
    if effects.veneration > 0 {
        multiplier += 50;
    }
    let efficiency = action.progress_efficiency(settings.job_level) as u64;
    let base = settings.base_progress as u64;
    assert(base * efficiency <= 65535 * 400) by (nonlinear_arith)
        requires
            base <= 65535,
            efficiency <= 400,
    ;
    assert(base * efficiency * multiplier <= 65535 * 400 * 250) by (nonlinear_arith)
        requires
            base * efficiency <= 65535 * 400,
            multiplier <= 250,
    ;
    (base * efficiency * multiplier / 10000) as u32
}

/// Percent by which the buffs multiply quality: Innovation adds 50, Great
/// Strides 100.
pub open spec fn spec_quality_multiplier(effects: Effects) -> u64 {
    (100 + (if effects.innovation > 0 {
        50int
    } else {
        0
    }) + (if effects.great_strides > 0 {
        100int
    } else {
        0
    })) as u64
}

/// Quality that the move adds under the condition: the base quality times
/// the move's efficiency, the condition, the buffs and ten percent per Inner
/// Quiet stack, rounded down once and capped at what 16 bits hold. Trained
/// Eye fills the quality bar whatever the condition.
pub open spec fn spec_quality_increase(
    action: Action,
    settings: Settings,
    effects: Effects,
    condition: Condition,
) -> u16 {
    if action == Action::TrainedEye {
        settings.max_quality
    } else {
        let raw = settings.base_quality as int * action.spec_quality_efficiency(
            effects.inner_quiet,
        ) as int * condition.spec_quality_percent() as int * spec_quality_multiplier(effects) as int
            * (100 + 10 * effects.inner_quiet) / 100_000_000;
        if raw > 0xffff {
            0xffffu16
        } else {
            raw as u16
        }
    }
}

pub fn quality_increase(
    action: Action,
    settings: &Settings,
    effects: &Effects,
    condition: Condition,
) -> (r: u16)
    requires
        effects.inner_quiet <= 10,
    ensures
        r == spec_quality_increase(action, *settings, *effects, condition),
{
    match action {
        Action::TrainedEye => settings.max_quality,
        _ => {
            let mut multiplier: u64 = 100;
            if effects.innovation > 0 {
                multiplier += 50;
            }
            if effects.great_strides > 0 {
                multiplier += 100;
            }
            let efficiency = action.quality_efficiency(effects.inner_quiet) as u64;
            let base = settings.base_quality as u64;
            let percent = condition.quality_percent();
            let stacks: u64 = 100 + 10 * (effects.inner_quiet as u64);
            assert(base * efficiency <= 65535 * 300) by (nonlinear_arith)
                requires
                    base <= 65535,
                    efficiency <= 300,
            ;
            assert(base * efficiency * percent <= 65535 * 300 * 400) by (nonlinear_arith)
                requires
                    base * efficiency <= 65535 * 300,
                    percent <= 400,
            ;
            assert(base * efficiency * percent * multiplier <= 65535 * 300 * 400 * 250)
                by (nonlinear_arith)
                requires
                    base * efficiency * percent <= 65535 * 300 * 400,
                    multiplier <= 250,
            ;
            assert(base * efficiency * percent * multiplier * stacks <= 65535 * 300 * 400 * 250
                * 200) by (nonlinear_arith)
                requires
                    base * efficiency * percent * multiplier <= 65535 * 300 * 400 * 250,
                    stacks <= 200,
            ;
            let raw: u64 = base * efficiency * percent * multiplier * stacks / 100_000_000;
            if raw > 0xffff {
                0xffffu16
            } else {
                raw as u16
            }
        },
    }
}

/// Sum of two quality values, held at the largest value 16 bits hold.
pub open spec fn spec_add_quality(a: u16, b: u16) -> u16 {
    if a + b > 0xffff {
        0xffffu16
    } else {
        (a + b) as u16
    }
}

fn add_quality(a: u16, b: u16) -> (r: u16)
    ensures
        r == spec_add_quality(a, b),
{
    if a > 0xffffu16 - b {
        0xffffu16
    } else {
        a + b
    }
}

/// Progress after an increase, held at the recipe's maximum.
pub open spec fn spec_add_progress(progress: u32, increase: u32, max_progress: u16) -> u32 {
    if progress >= max_progress {
        progress
    } else if progress + increase >= max_progress {
        max_progress as u32
    } else {
        (progress + increase) as u32
    }
}

fn add_progress(progress: u32, increase: u32, max_progress: u16) -> (r: u32)
    ensures
        r == spec_add_progress(progress, increase, max_progress),
{
    if progress >= max_progress as u32 {
        progress
    } else if increase >= max_progress as u32 - progress {
        max_progress as u32
    } else {
        progress + increase
    }
}

/// Durability after a repair of `amount`, held at the recipe's maximum.
pub open spec fn spec_restore(durability: i8, amount: i8, max_durability: i8) -> i8 {
    if durability + amount >= max_durability {
        max_durability
    } else {
        (durability + amount) as i8
    }
}

fn restore(durability: i8, amount: i8, max_durability: i8) -> (r: i8)
    requires
        0 <= amount <= 30,
    ensures
        r == spec_restore(durability, amount, max_durability),
{
    let sum: i16 = durability as i16 + amount as i16;
    if sum >= max_durability as i16 {
        max_durability
    } else {
        sum as i8
    }
}

/// Whether the move is one of the three that need a favourable condition
/// or, in its place, Heart and Soul.
pub open spec fn spec_needs_favour(action: Action) -> bool {
    action == Action::IntensiveSynthesis || action == Action::PreciseTouch || action
        == Action::TricksOfTheTrade
}

fn needs_favour(action: Action) -> (r: bool)
    ensures
        r == spec_needs_favour(action),
{
    match action {
        Action::IntensiveSynthesis | Action::PreciseTouch | Action::TricksOfTheTrade => true,
        _ => false,
    }
}

/// The state of the token that the move spends, if it spends one.
pub open spec fn spec_token_of(action: Action, effects: Effects) -> Option<SingleUse> {
    match action {
        Action::TrainedPerfection => Some(effects.trained_perfection),
        Action::HeartAndSoul => Some(effects.heart_and_soul),
        Action::QuickInnovation => Some(effects.quick_innovation),
        _ => None,
    }
}

/// Whether the buffs and the condition admit a move of this kind:
/// Byregot's Blessing needs an Inner Quiet stack, Trained Finesse all ten;
/// the prudent moves do not work under Waste Not; Quick Innovation does not
/// stack on Innovation; Intensive Synthesis, Precise Touch and Tricks of the
/// Trade need a favourable condition or Heart and Soul.
pub open spec fn spec_class_admits(action: Action, effects: Effects, condition: Condition) -> bool {
    match action {
        Action::ByregotsBlessing => effects.inner_quiet > 0,
        Action::TrainedFinesse => effects.inner_quiet >= 10,
        Action::PrudentSynthesis | Action::PrudentTouch => effects.waste_not == 0,
        Action::QuickInnovation => effects.innovation == 0,
        Action::IntensiveSynthesis | Action::PreciseTouch | Action::TricksOfTheTrade => {
            condition.spec_is_favourable() || effects.heart_and_soul == SingleUse::Active
        },
        _ => true,
    }
}

fn class_admits(action: Action, effects: &Effects, condition: Condition) -> (r: bool)
    ensures
        r == spec_class_admits(action, *effects, condition),
{
    match action {
        Action::ByregotsBlessing => effects.inner_quiet > 0,
        Action::TrainedFinesse => effects.inner_quiet >= 10,
        Action::PrudentSynthesis | Action::PrudentTouch => effects.waste_not == 0,
        Action::QuickInnovation => effects.innovation == 0,
        Action::IntensiveSynthesis | Action::PreciseTouch | Action::TricksOfTheTrade => {
            condition.is_favourable() || effects.heart_and_soul == SingleUse::Active
        },
        _ => true,
    }
}

/// The first reason, in the fixed order of the checks, why the move cannot
/// be made; `None` if it can.
pub open spec fn spec_rejection(
    state: SimulationState,
    action: Action,
    condition: Condition,
    settings: Settings,
) -> Option<ActionError> {
    if !settings.allowed_actions.spec_has(action) {
        Some(ActionError::NotUnlocked)
    } else if action.spec_required_combo() is Some && action.spec_required_combo()
        != Some(state.combo) {
        Some(ActionError::BadCombo)
    } else if spec_token_of(action, state.effects) is Some && spec_token_of(action, state.effects)
        != Some(SingleUse::Available) {
        Some(ActionError::SingleUseExhausted)
    } else if action.spec_cp_cost() > state.cp {
        Some(ActionError::InsufficientCP)
    } else if state.durability <= 0 || state.durability - spec_durability_cost(
        action,
        state.effects,
    ) < -5 {
        Some(ActionError::InsufficientDurability)
    } else if !spec_class_admits(action, state.effects, condition) {
        Some(ActionError::WrongClassOfAction)
    } else {
        None
    }
}

/// The buffs after the move has paid and gained, before the turn ends:
/// progress spends Muscle Memory; quality spends Great Strides and adds
/// Inner Quiet (from job level 11 on); a move that wears the item spends an
/// active Trained Perfection; a move that needed Heart and Soul spends it.
pub open spec fn spec_effects_after_gain(
    action: Action,
    effects: Effects,
    condition: Condition,
    settings: Settings,
    progress_gain: u32,
    quality_gain: u16,
) -> Effects {
    Effects {
        muscle_memory: if progress_gain != 0 {
            0
        } else {
            effects.muscle_memory
        },
        great_strides: if quality_gain != 0 {
            0
        } else {
            effects.great_strides
        },
        inner_quiet: if quality_gain != 0 && settings.job_level >= 11 {
            if effects.inner_quiet + action.spec_inner_quiet_gain() >= 10 {
                10
            } else {
                (effects.inner_quiet + action.spec_inner_quiet_gain()) as u8
            }
        } else {
            effects.inner_quiet
        },
        trained_perfection: if action.spec_base_durability_cost() != 0 && effects.trained_perfection
            == SingleUse::Active {
            SingleUse::Unavailable
        } else {
            effects.trained_perfection
        },
        heart_and_soul: if spec_needs_favour(action) && !condition.spec_is_favourable()
            && effects.heart_and_soul == SingleUse::Active {
            SingleUse::Unavailable
        } else {
            effects.heart_and_soul
        },
        ..effects
    }
}

/// What the move itself writes into the buffs, after the turn's decrement.
pub open spec fn spec_effects_written(action: Action, effects: Effects) -> Effects {
    match action {
        Action::MuscleMemory => Effects { muscle_memory: 5, ..effects },
        Action::GreatStrides => Effects { great_strides: 3, ..effects },
        Action::Veneration => Effects { veneration: 4, ..effects },
        Action::Innovation => Effects { innovation: 4, ..effects },
        Action::WasteNot => Effects { waste_not: 4, ..effects },
        Action::WasteNot2 => Effects { waste_not: 8, ..effects },
        Action::Manipulation => Effects { manipulation: 8, ..effects },
        Action::ByregotsBlessing => Effects { inner_quiet: 0, ..effects },
        Action::TrainedPerfection => Effects {
            trained_perfection: SingleUse::Active,
            ..effects
        },
        Action::HeartAndSoul => Effects { heart_and_soul: SingleUse::Active, ..effects },
        Action::QuickInnovation => Effects {
            innovation: 1,
            quick_innovation: SingleUse::Unavailable,
            ..effects
        },
        _ => effects,
    }
}

fn effects_written(action: Action, effects: Effects) -> (r: Effects)
    ensures
        r == spec_effects_written(action, effects),
        effects.valid() ==> r.valid(),
{
    match action {
        Action::MuscleMemory => Effects { muscle_memory: 5, ..effects },
        Action::GreatStrides => Effects { great_strides: 3, ..effects },
        Action::Veneration => Effects { veneration: 4, ..effects },
        Action::Innovation => Effects { innovation: 4, ..effects },
        Action::WasteNot => Effects { waste_not: 4, ..effects },
        Action::WasteNot2 => Effects { waste_not: 8, ..effects },
        Action::Manipulation => Effects { manipulation: 8, ..effects },
        Action::ByregotsBlessing => Effects { inner_quiet: 0, ..effects },
        Action::TrainedPerfection => Effects {
            trained_perfection: SingleUse::Active,
            ..effects
        },
        Action::HeartAndSoul => Effects { heart_and_soul: SingleUse::Active, ..effects },
        Action::QuickInnovation => Effects {
            innovation: 1,
            quick_innovation: SingleUse::Unavailable,
            ..effects
        },
        _ => effects,
    }
}

/// Whether the unfavourable condition may strike this move: only in the
/// adversarial model, only a move that raises quality, and not under guard.
pub open spec fn spec_exposed(settings: Settings, effects: Effects, quality_gain: u16) -> bool {
    settings.adversarial && effects.guard == 0 && quality_gain != 0
}

/// The quality pair after a move that gains `gain` normally and `poor` when
/// struck. A guarded move adds its gain to both. An exposed move is struck
/// or spared: the certain value is the lesser of "spared now, struck
/// before" and "struck now, spared before"; the spared value builds on the
/// certain one, since the condition does not strike twice in a row.
pub open spec fn spec_quality_after(
    pair: [u16; 2],
    exposed: bool,
    gain: u16,
    poor: u16,
) -> [u16; 2] {
    if exposed {
        let spared = spec_add_quality(pair[0], gain);
        let struck = spec_add_quality(pair[1], poor);
        [
            if spared <= struck {
                spared
            } else {
                struck
            },
            spared,
        ]
    } else {
        [spec_add_quality(pair[0], gain), spec_add_quality(pair[1], gain)]
    }
}

fn quality_after(pair: [u16; 2], exposed: bool, gain: u16, poor: u16) -> (r: [u16; 2])
    ensures
        r == spec_quality_after(pair, exposed, gain, poor),
{
    if exposed {
        let spared = add_quality(pair[0], gain);
        let struck = add_quality(pair[1], poor);
        let certain = if spared <= struck {
            spared
        } else {
            struck
        };
        [certain, spared]
    } else {
        [add_quality(pair[0], gain), add_quality(pair[1], gain)]
    }
}

/// The state after the move has paid its costs and made its gains.
pub open spec fn spec_after_gain(
    state: SimulationState,
    action: Action,
    condition: Condition,
    settings: Settings,
) -> SimulationState {
    let progress_gain = spec_progress_increase(action, settings, state.effects);
    let quality_gain = spec_quality_increase(action, settings, state.effects, condition);
    let poor_gain = spec_quality_increase(action, settings, state.effects, Condition::Poor);
    SimulationState {
        cp: (state.cp - action.spec_cp_cost()) as i16,
        durability: (state.durability - spec_durability_cost(action, state.effects)) as i8,
        progress: spec_add_progress(state.progress, progress_gain, settings.max_progress),
        unreliable_quality: spec_quality_after(
            state.unreliable_quality,
            spec_exposed(settings, state.effects, quality_gain),
            quality_gain,
            poor_gain,
        ),
        effects: spec_effects_after_gain(
            action,
            state.effects,
            condition,
            settings,
            progress_gain,
            quality_gain,
        ),
        combo: action.spec_to_combo(),
    }
}

/// The end of the turn for a craft that goes on: Manipulation, if it was in
/// force when the move was made, restores 5 durability; the timed buffs lose
/// a turn; the move writes its own buff; an exposed touch sets the guard for
/// the next turn; the repair moves and Tricks of the Trade pay out.
pub open spec fn spec_end_turn(
    before: SimulationState,
    mid: SimulationState,
    action: Action,
    condition: Condition,
    settings: Settings,
) -> SimulationState {
    let quality_gain = spec_quality_increase(action, settings, before.effects, condition);
    let written = spec_effects_written(action, mid.effects.spec_tick_down());
    let repaired = match action {
        Action::MasterMend => spec_restore(mid.durability, 30, settings.max_durability),
        Action::ImmaculateMend => settings.max_durability,
        _ => mid.durability,
    };
    SimulationState {
        cp: if action == Action::TricksOfTheTrade {
            if mid.cp + 20 >= settings.max_cp {
                settings.max_cp
            } else {
                (mid.cp + 20) as i16
            }
        } else {
            mid.cp
        },
        durability: if before.effects.manipulation > 0 && action != Action::Manipulation {
            spec_restore(repaired, 5, settings.max_durability)
        } else {
            repaired
        },
        effects: if spec_exposed(settings, before.effects, quality_gain) {
            Effects { guard: 1, ..written }
        } else {
            written
        },
        ..mid
    }
}

fn rejection(
    state: &SimulationState,
    action: Action,
    condition: Condition,
    settings: &Settings,
) -> (r: Option<ActionError>)
    ensures
        r == spec_rejection(*state, action, condition, *settings),
{
    if !settings.allowed_actions.has(action) {
        return Some(ActionError::NotUnlocked);
    }
    if let Some(needed) = action.required_combo() {
        if needed != state.combo {
            return Some(ActionError::BadCombo);
        }
    }
    let token = match action {
        Action::TrainedPerfection => Some(state.effects.trained_perfection),
        Action::HeartAndSoul => Some(state.effects.heart_and_soul),
        Action::QuickInnovation => Some(state.effects.quick_innovation),
        _ => None,
    };
    if let Some(t) = token {
        if t != SingleUse::Available {
            return Some(ActionError::SingleUseExhausted);
        }
    }
    if action.cp_cost() > state.cp {
        return Some(ActionError::InsufficientCP);
    }
    let wear = durability_cost(action, &state.effects);
    if state.durability <= 0 || state.durability - wear < -5 {
        return Some(ActionError::InsufficientDurability);
    }
    if !class_admits(action, &state.effects, condition) {
        return Some(ActionError::WrongClassOfAction);
    }
    None
}

fn effects_after_gain(
    action: Action,
    effects: Effects,
    condition: Condition,
    settings: &Settings,
    progress_gain: u32,
    quality_gain: u16,
) -> (r: Effects)
    requires
        effects.valid(),
    ensures
        r == spec_effects_after_gain(
            action,
            effects,
            condition,
            *settings,
            progress_gain,
            quality_gain,
        ),
        r.valid(),
{
    let mut next = effects;
    if progress_gain != 0 {
        next.muscle_memory = 0;
    }
    if quality_gain != 0 {
        next.great_strides = 0;
        if settings.job_level >= 11 {
            let stacks = effects.inner_quiet + action.inner_quiet_gain();
            next.inner_quiet = if stacks >= 10 {
                10
            } else {
                stacks
            };
        }
    }
    if action.base_durability_cost() != 0 && effects.trained_perfection == SingleUse::Active {
        next.trained_perfection = SingleUse::Unavailable;
    }
    if needs_favour(action) && !condition.is_favourable() && effects.heart_and_soul
        == SingleUse::Active {
        next.heart_and_soul = SingleUse::Unavailable;
    }
    next
}

fn after_gain(
    state: &SimulationState,
    action: Action,
    condition: Condition,
    settings: &Settings,
) -> (r: SimulationState)
    requires
        state.effects.valid(),
        spec_rejection(*state, action, condition, *settings) is None,
    ensures
        r == spec_after_gain(*state, action, condition, *settings),
        r.effects.valid(),
        r.cp >= 0,
        r.cp <= state.cp,
        r.durability >= -5,
        r.durability <= state.durability,
        state.progress <= settings.max_progress ==> r.progress <= settings.max_progress,
{
    let progress_gain = progress_increase(action, settings, &state.effects);
    let quality_gain = quality_increase(action, settings, &state.effects, condition);
    let poor_gain = quality_increase(action, settings, &state.effects, Condition::Poor);
    let exposed = settings.adversarial && state.effects.guard == 0 && quality_gain != 0;
    SimulationState {
        cp: state.cp - action.cp_cost(),
        durability: state.durability - durability_cost(action, &state.effects),
        progress: add_progress(state.progress, progress_gain, settings.max_progress),
        unreliable_quality: quality_after(
            state.unreliable_quality,
            exposed,
            quality_gain,
            poor_gain,
        ),
        effects: effects_after_gain(
            action,
            state.effects,
            condition,
            settings,
            progress_gain,
            quality_gain,
        ),
        combo: action.to_combo(),
    }
}

fn end_turn(
    before: &SimulationState,
    mid: &SimulationState,
    action: Action,
    condition: Condition,
    settings: &Settings,
) -> (r: SimulationState)
    requires
        before.effects.valid(),
        mid.effects.valid(),
        mid.cp >= 0,
        mid.durability > 0,
    ensures
        r == spec_end_turn(*before, *mid, action, condition, *settings),
        r.effects.valid(),
        settings.valid() ==> r.cp >= 0 && r.durability >= -5,
        settings.valid() && mid.cp <= settings.max_cp && mid.durability
            <= settings.max_durability ==> r.cp <= settings.max_cp && r.durability
            <= settings.max_durability,
{
    let quality_gain = quality_increase(action, settings, &before.effects, condition);
    let exposed = settings.adversarial && before.effects.guard == 0 && quality_gain != 0;
    let mut written = effects_written(action, mid.effects.tick_down());
    if exposed {
        written.guard = 1;
    }
    let repaired = match action {
        Action::MasterMend => restore(mid.durability, 30, settings.max_durability),
        Action::ImmaculateMend => settings.max_durability,
        _ => mid.durability,
    };
    let refund = before.effects.manipulation > 0 && action != Action::Manipulation;
    let durability = if refund {
        restore(repaired, 5, settings.max_durability)
    } else {
        repaired
    };
    let cp = match action {
        Action::TricksOfTheTrade => {
            if mid.cp as i32 + 20 >= settings.max_cp as i32 {
                settings.max_cp
            } else {
                mid.cp + 20
            }
        },
        _ => mid.cp,
    };
    SimulationState {
        cp,
        durability,
        progress: mid.progress,
        unreliable_quality: mid.unreliable_quality,
        effects: written,
        combo: mid.combo,
    }
}

impl SimulationState {
    /// The fields are within the bounds that the settings give them.
    pub open spec fn valid(self, settings: Settings) -> bool {
        &&& 0 <= self.cp <= settings.max_cp
        &&& -5 <= self.durability <= settings.max_durability
        &&& self.progress <= settings.max_progress
        &&& self.effects.valid()
    }

    pub fn is_valid(&self, settings: &Settings) -> (r: bool)
        ensures
            r == self.valid(*settings),
    {
        0 <= self.cp && self.cp <= settings.max_cp && -5 <= self.durability && self.durability
            <= settings.max_durability && self.progress <= settings.max_progress as u32
            && self.effects.is_valid()
    }

    /// The state before the first move. In the adversarial model the first
    /// turn is under guard: the condition of the first turn is always normal.
    pub open spec fn spec_new(settings: Settings) -> SimulationState {
        SimulationState {
            cp: settings.max_cp,
            durability: settings.max_durability,
            progress: 0,
            unreliable_quality: [0u16, 0u16],
            effects: Effects {
                guard: if settings.adversarial {
                    1
                } else {
                    0
                },
                ..Effects::spec_new()
            },
            combo: Combo::SynthesisBegin,
        }
    }

    pub fn new(settings: &Settings) -> (r: SimulationState)
        ensures
            r == SimulationState::spec_new(*settings),
            settings.valid() ==> r.valid(*settings),
    {
        let guard: u8 = if settings.adversarial {
            1
        } else {
            0
        };
        SimulationState {
            cp: settings.max_cp,
            durability: settings.max_durability,
            progress: 0,
            unreliable_quality: [0u16, 0u16],
            effects: Effects::new().with_guard(guard),
            combo: Combo::SynthesisBegin,
        }
    }

    /// The quality that is certain: the lesser of the pair.
    pub open spec fn spec_get_quality(self) -> u16 {
        if self.unreliable_quality[0] <= self.unreliable_quality[1] {
            self.unreliable_quality[0]
        } else {
            self.unreliable_quality[1]
        }
    }

    pub fn get_quality(&self) -> (r: u16)
        ensures
            r == self.spec_get_quality(),
            r <= self.unreliable_quality[0],
            r <= self.unreliable_quality[1],
    {
        if self.unreliable_quality[0] <= self.unreliable_quality[1] {
            self.unreliable_quality[0]
        } else {
            self.unreliable_quality[1]
        }
    }

    /// A craft has ended when the progress bar is full or the item is broken.
    pub open spec fn spec_is_final(self, settings: Settings) -> bool {
        self.progress >= settings.max_progress || self.durability <= 0
    }

    pub fn is_final(&self, settings: &Settings) -> (r: bool)
        ensures
            r == self.spec_is_final(*settings),
    {
        self.progress >= settings.max_progress as u32 || self.durability <= 0
    }

    /// The result of one move: the reason why it cannot be made, or the
    /// state after it. A move that ends the craft stops the turn there; the
    /// buffs of an ended craft are not advanced.
    #[verifier::opaque]
    pub open spec fn spec_use_action(
        self,
        action: Action,
        condition: Condition,
        settings: Settings,
    ) -> Result<SimulationState, ActionError> {
        match spec_rejection(self, action, condition, settings) {
            Some(e) => Err(e),
            None => {
                let mid = spec_after_gain(self, action, condition, settings);
                if mid.spec_is_final(settings) {
                    Ok(mid)
                } else {
                    Ok(spec_end_turn(self, mid, action, condition, settings))
                }
            },
        }
    }

    /// Makes one move. The counters of `self` must be within their caps;
    /// nothing else is asked of it.
    pub fn use_action(self, action: Action, condition: Condition, settings: &Settings) -> (r:
        Result<SimulationState, ActionError>)
        requires
            self.effects.valid(),
        ensures
            r == self.spec_use_action(action, condition, *settings),
            r matches Ok(next) ==> next.effects.valid(),
            r matches Ok(next) ==> (settings.valid() ==> next.cp >= 0 && next.durability >= -5),
            r matches Ok(next) ==> (self.progress <= settings.max_progress ==> next.progress
                <= settings.max_progress),
            r matches Ok(next) ==> (self.valid(*settings) && settings.valid() ==> next.valid(
                *settings,
            )),
    {
        proof {
            reveal(SimulationState::spec_use_action);
        }
        if let Some(e) = rejection(&self, action, condition, settings) {
            return Err(e);
        }
        let mid = after_gain(&self, action, condition, settings);
        if mid.is_final(settings) {
            return Ok(mid);
        }
        Ok(end_turn(&self, &mid, action, condition, settings))
    }

    /// The result of a sequence of moves under the normal condition, from
    /// the given state: the state after the last move, or the first
    /// rejection.
    pub open spec fn spec_replay(self, actions: Seq<Action>, settings: Settings) -> Result<
        SimulationState,
        ActionError,
    >
        decreases actions.len(),
    {
        if actions.len() == 0 {
            Ok(self)
        } else {
            match self.spec_use_action(actions[0], Condition::Normal, settings) {
                Ok(next) => next.spec_replay(actions.skip(1), settings),
                Err(e) => Err(e),
            }
        }
    }

    /// Runs a macro from the start of a craft under the normal condition.
    pub fn from_macro(settings: &Settings, actions: &[Action]) -> (r: Result<
        SimulationState,
        ActionError,
    >)
        ensures
            r == SimulationState::spec_new(*settings).spec_replay(actions@, *settings),
            r matches Ok(s) ==> s.effects.valid(),
    {
        let mut state = SimulationState::new(settings);
        let mut i: usize = 0;
        assert(actions@.skip(0) == actions@);
        while i < actions.len()
            invariant
                i <= actions.len(),
                state.effects.valid(),
                SimulationState::spec_new(*settings).spec_replay(actions@, *settings)
                    == state.spec_replay(actions@.skip(i as int), *settings),
            decreases actions.len() - i,
        {
            let ghost rest = actions@.skip(i as int);
            assert(rest[0] == actions@[i as int]);
            assert(rest.skip(1) == actions@.skip(i + 1));
            match state.use_action(actions[i], Condition::Normal, settings) {
                Ok(next) => {
                    state = next;
                },
                Err(e) => {
                    return Err(e);
                },
            }
            i += 1;
        }
        assert(actions@.skip(i as int).len() == 0);
        Ok(state)
    }
}

/// A move that is not among the allowed ones is rejected as such.
pub proof fn lemma_not_allowed_is_rejected(
    state: SimulationState,
    action: Action,
    condition: Condition,
    settings: Settings,
)
    requires
        !settings.allowed_actions.spec_has(action),
    ensures
        state.spec_use_action(action, condition, settings) == Err::<
            SimulationState,
            ActionError,
        >(ActionError::NotUnlocked),
{
    reveal(SimulationState::spec_use_action);
}

/// A move without progress efficiency adds no progress.
pub proof fn lemma_no_efficiency_no_progress(action: Action, settings: Settings, effects: Effects)
    requires
        action.spec_progress_efficiency(settings.job_level) == 0,
    ensures
        spec_progress_increase(action, settings, effects) == 0,
{
    assert(settings.base_progress as int * 0 * spec_progress_multiplier(effects) as int == 0)
        by (nonlinear_arith);
}

/// A move adds no less progress when Muscle Memory or Veneration is in
/// force than when it is not, and it adds none with the one set of buffs
/// exactly when it adds none with the other.
pub proof fn lemma_progress_grows_with_buffs(
    action: Action,
    settings: Settings,
    lo: Effects,
    hi: Effects,
)
    requires
        lo.muscle_memory > 0 ==> hi.muscle_memory > 0,
        lo.veneration > 0 ==> hi.veneration > 0,
    ensures
        spec_progress_increase(action, settings, lo) <= spec_progress_increase(
            action,
            settings,
            hi,
        ),
        spec_progress_increase(action, settings, lo) == 0 <==> spec_progress_increase(
            action,
            settings,
            hi,
        ) == 0,
{
    let base = settings.base_progress as int;
    let eff = action.spec_progress_efficiency(settings.job_level) as int;
    let x = base * eff;
    let m1 = spec_progress_multiplier(lo) as int;
    let m2 = spec_progress_multiplier(hi) as int;
    assert(100 <= m1 <= m2 <= 250);
    assert(eff == 0 || 100 <= eff <= 400);
    assert(0 <= x <= 65535 * 400 && (x == 0 || x >= 100)) by (nonlinear_arith)
        requires
            x == base * eff,
            0 <= base <= 65535,
            eff == 0 || 100 <= eff <= 400,
    ;
    assert(x * m1 <= x * m2 && x * m2 <= 65535 * 400 * 250 && (x == 0 ==> x * m2 == 0) && (x
        >= 100 ==> x * m1 >= 10000)) by (nonlinear_arith)
        requires
            0 <= x <= 65535 * 400,
            100 <= m1 <= m2 <= 250,
    ;
    assert(base * eff * m1 == x * m1);
    assert(base * eff * m2 == x * m2);
}

/// A move adds no less quality under the normal condition when Innovation
/// or Great Strides is in force than when it is not, Inner Quiet being the
/// same, and it adds none with the one set of buffs exactly when it adds
/// none with the other.
pub proof fn lemma_quality_grows_with_buffs(
    action: Action,
    settings: Settings,
    lo: Effects,
    hi: Effects,
)
    requires
        lo.inner_quiet == hi.inner_quiet,
        lo.inner_quiet <= 10,
        lo.innovation > 0 ==> hi.innovation > 0,
        lo.great_strides > 0 ==> hi.great_strides > 0,
    ensures
        spec_quality_increase(action, settings, lo, Condition::Normal) <= spec_quality_increase(
            action,
            settings,
            hi,
            Condition::Normal,
        ),
        spec_quality_increase(action, settings, lo, Condition::Normal) == 0
            <==> spec_quality_increase(action, settings, hi, Condition::Normal) == 0,
{
    if action != Action::TrainedEye {
        let base = settings.base_quality as int;
        let eff = action.spec_quality_efficiency(lo.inner_quiet) as int;
        let k = 100 + 10 * lo.inner_quiet;
        let m1 = spec_quality_multiplier(lo) as int;
        let m2 = spec_quality_multiplier(hi) as int;
        let x = base * eff * 100;
        assert(100 <= m1 <= m2 <= 250);
        assert(100 <= k <= 200);
        assert(eff == 0 || 100 <= eff <= 300);
        assert(x >= 0 && (x == 0 || x >= 10000)) by (nonlinear_arith)
            requires
                x == base * eff * 100,
                0 <= base <= 65535,
                eff == 0 || 100 <= eff <= 300,
        ;
        let y1 = x * m1 * k;
        let y2 = x * m2 * k;
        assert(0 <= y1 <= y2 && (x == 0 ==> y2 == 0) && (x >= 10000 ==> y1 >= 100_000_000))
            by (nonlinear_arith)
            requires
                x >= 0,
                100 <= m1 <= m2 <= 250,
                100 <= k <= 200,
                y1 == x * m1 * k,
                y2 == x * m2 * k,
        ;
        assert(Condition::Normal.spec_quality_percent() == 100);
    }
}

/// A move without quality efficiency, other than Trained Eye, adds no
/// quality.
pub proof fn lemma_no_efficiency_no_quality(
    action: Action,
    settings: Settings,
    effects: Effects,
    condition: Condition,
)
    requires
        action != Action::TrainedEye,
        action.spec_quality_efficiency(effects.inner_quiet) == 0,
    ensures
        spec_quality_increase(action, settings, effects, condition) == 0,
{
    let a = settings.base_quality as int;
    let c = condition.spec_quality_percent() as int;
    let m = spec_quality_multiplier(effects) as int;
    let k = 100 + 10 * effects.inner_quiet;
    assert(a * 0 * c * m * k == 0) by (nonlinear_arith);
}

/// Under the unfavourable condition a move adds at most the quality that
/// it adds under the normal one.
pub proof fn lemma_poor_is_at_most_normal(action: Action, settings: Settings, effects: Effects)
    ensures
        spec_quality_increase(action, settings, effects, Condition::Poor) <= spec_quality_increase(
            action,
            settings,
            effects,
            Condition::Normal,
        ),
{
    if action != Action::TrainedEye {
        let x = settings.base_quality as int * action.spec_quality_efficiency(
            effects.inner_quiet,
        ) as int;
        let y = spec_quality_multiplier(effects) as int * (100 + 10 * effects.inner_quiet);
        assert(x >= 0 && y >= 0) by (nonlinear_arith)
            requires
                x == settings.base_quality as int * action.spec_quality_efficiency(
                    effects.inner_quiet,
                ) as int,
                y == spec_quality_multiplier(effects) as int * (100 + 10 * effects.inner_quiet),
                spec_quality_multiplier(effects) >= 100,
        ;
        let poor = x * 50 * spec_quality_multiplier(effects) as int * (100 + 10
            * effects.inner_quiet);
        let normal = x * 100 * spec_quality_multiplier(effects) as int * (100 + 10
            * effects.inner_quiet);
        assert(poor <= normal) by (nonlinear_arith)
            requires
                x >= 0,
                spec_quality_multiplier(effects) >= 100,
                effects.inner_quiet >= 0,
                poor == x * 50 * spec_quality_multiplier(effects) as int * (100 + 10
                    * effects.inner_quiet),
                normal == x * 100 * spec_quality_multiplier(effects) as int * (100 + 10
                    * effects.inner_quiet),
        ;
        assert(poor / 100_000_000 <= normal / 100_000_000);
    }
}

/// A move that fills the progress bar of a craft whose bar was not full:
/// the move was not rejected, the state after it is the state after its
/// gains, it added progress, and the quality that is certain grew by at most
/// what the move adds under the normal condition.
pub proof fn lemma_completing_move(
    state: SimulationState,
    action: Action,
    settings: Settings,
    next: SimulationState,
)
    requires
        state.spec_use_action(action, Condition::Normal, settings) == Ok::<
            SimulationState,
            ActionError,
        >(next),
        state.progress < settings.max_progress,
        next.progress >= settings.max_progress,
    ensures
        spec_rejection(state, action, Condition::Normal, settings) is None,
        next == spec_after_gain(state, action, Condition::Normal, settings),
        spec_progress_increase(action, settings, state.effects) > 0,
        state.progress + spec_progress_increase(action, settings, state.effects)
            >= settings.max_progress,
        next.spec_get_quality() <= spec_add_quality(
            state.spec_get_quality(),
            spec_quality_increase(action, settings, state.effects, Condition::Normal),
        ),
{
    reveal(SimulationState::spec_use_action);
    lemma_poor_is_at_most_normal(action, settings, state.effects);
    let mid = spec_after_gain(state, action, Condition::Normal, settings);
    if !mid.spec_is_final(settings) {
        assert(next.progress == mid.progress);
    }
}

/// What a move does after which the craft goes on: it was not rejected,
/// the turn ended after its gains, it cost its crafting points and added
/// its progress, and the quality that is certain grew by at most what the
/// move adds under the normal condition.
#[verifier::rlimit(40)]
pub proof fn lemma_move_that_goes_on(
    state: SimulationState,
    action: Action,
    settings: Settings,
    next: SimulationState,
)
    requires
        state.spec_use_action(action, Condition::Normal, settings) == Ok::<
            SimulationState,
            ActionError,
        >(next),
        !next.spec_is_final(settings),
    ensures
        spec_rejection(state, action, Condition::Normal, settings) is None,
        !spec_after_gain(state, action, Condition::Normal, settings).spec_is_final(settings),
        next == spec_end_turn(
            state,
            spec_after_gain(state, action, Condition::Normal, settings),
            action,
            Condition::Normal,
            settings,
        ),
        action != Action::TricksOfTheTrade ==> next.cp == state.cp - action.spec_cp_cost(),
        0 <= action.spec_cp_cost() <= state.cp,
        state.durability > 0,
        next.durability > 0,
        next.progress == state.progress + spec_progress_increase(action, settings, state.effects),
        next.progress < settings.max_progress,
        next.combo == action.spec_to_combo(),
        next.spec_get_quality() <= state.spec_get_quality() + spec_quality_increase(
            action,
            settings,
            state.effects,
            Condition::Normal,
        ),
{
    reveal(SimulationState::spec_use_action);
    lemma_poor_is_at_most_normal(action, settings, state.effects);
    let mid = spec_after_gain(state, action, Condition::Normal, settings);
    assert(!mid.spec_is_final(settings));
    assert(next.progress == mid.progress);
    assert(next.unreliable_quality == mid.unreliable_quality);
}

/// What a macro leads to when it is played from the start of a craft.
#[derive(Clone, Copy, Debug)]
pub enum CraftState {
    /// Every move was made and the craft goes on.
    InProgress(SimulationState),
    /// Every move was made and the progress bar is full.
    Completed(SimulationState),
    /// Every move was made and the item broke before the bar was full.
    Failed(SimulationState),
    /// A move was rejected, or came after the craft had ended.
    Invalid,
}

/// How the craft stands in `state`: done when the progress bar is full,
/// else failed when no durability is left, else going on.
pub open spec fn spec_standing(state: SimulationState, settings: Settings) -> CraftState {
    if state.progress >= settings.max_progress {
        CraftState::Completed(state)
    } else if state.durability <= 0 {
        CraftState::Failed(state)
    } else {
        CraftState::InProgress(state)
    }
}

/// What the moves lead to from `state` under the normal condition: a move
/// after the end of the craft, or one that is rejected, makes the whole
/// sequence invalid.
pub open spec fn spec_outcome(
    state: SimulationState,
    actions: Seq<Action>,
    settings: Settings,
) -> CraftState
    decreases actions.len(),
{
    if actions.len() == 0 {
        spec_standing(state, settings)
    } else if state.spec_is_final(settings) {
        CraftState::Invalid
    } else {
        match state.spec_use_action(actions[0], Condition::Normal, settings) {
            Ok(next) => spec_outcome(next, actions.skip(1), settings),
            Err(_) => CraftState::Invalid,
        }
    }
}

/// A sequence of moves that is not invalid leads to the state that
/// replaying it gives, and that state stands as the outcome says.
pub proof fn lemma_outcome_is_replay(
    state: SimulationState,
    actions: Seq<Action>,
    settings: Settings,
)
    ensures
        match spec_outcome(state, actions, settings) {
            CraftState::InProgress(s) | CraftState::Completed(s) | CraftState::Failed(s) => {
                &&& state.spec_replay(actions, settings) == Ok::<SimulationState, ActionError>(s)
                &&& spec_outcome(state, actions, settings) == spec_standing(s, settings)
            },
            CraftState::Invalid => actions.len() > 0,
        },
    decreases actions.len(),
{
    if actions.len() > 0 && !state.spec_is_final(settings) {
        match state.spec_use_action(actions[0], Condition::Normal, settings) {
            Ok(next) => {
                lemma_outcome_is_replay(next, actions.skip(1), settings);
            },
            Err(_) => {},
        }
    }
}

/// Plays a macro from the start of a craft under the normal condition and
/// says how the craft stands after it.
pub fn replay_outcome(settings: &Settings, actions: &[Action]) -> (r: CraftState)
    ensures
        r == spec_outcome(SimulationState::spec_new(*settings), actions@, *settings),
{
    let mut state = SimulationState::new(settings);
    let mut i: usize = 0;
    assert(actions@.skip(0) == actions@);
    while i < actions.len()
        invariant
            i <= actions.len(),
            state.effects.valid(),
            spec_outcome(SimulationState::spec_new(*settings), actions@, *settings)
                == spec_outcome(state, actions@.skip(i as int), *settings),
        decreases actions.len() - i,
    {
        let ghost rest = actions@.skip(i as int);
        assert(rest[0] == actions@[i as int]);
        assert(rest.skip(1) == actions@.skip(i + 1));
        if state.is_final(settings) {
            return CraftState::Invalid;
        }
        match state.use_action(actions[i], Condition::Normal, settings) {
            Ok(next) => {
                state = next;
            },
            Err(_) => {
                return CraftState::Invalid;
            },
        }
        i += 1;
    }
    assert(actions@.skip(i as int).len() == 0);
    if state.progress >= settings.max_progress as u32 {
        CraftState::Completed(state)
    } else if state.durability <= 0 {
        CraftState::Failed(state)
    } else {
        CraftState::InProgress(state)
    }
}

} // verus!
