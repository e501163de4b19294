use vstd::prelude::*;

verus! {

/// One move of the crafting game.
///
/// The variants are listed in the order in which the game unlocks them; that
/// order is also the order of the identifiers ([`Action::id`]) and therefore
/// the order in which a mask hands its members out. A move whose cost depends
/// on the move before it appears twice: once on its own and once as the
/// follow-up (`Combo...`), which demands the matching [`Combo`] state.
#[derive(Clone, Copy, Debug, PartialEq, Eq, Structural, Hash)]
pub enum Action {
    BasicSynthesis,
    BasicTouch,
    MasterMend,
    Observe,
    TricksOfTheTrade,
    WasteNot,
    Veneration,
    StandardTouch,
    ComboStandardTouch,
    GreatStrides,
    Innovation,
    WasteNot2,
    ByregotsBlessing,
    PreciseTouch,
    MuscleMemory,
    CarefulSynthesis,
    Manipulation,
    PrudentTouch,
    AdvancedTouch,
    ComboAdvancedTouch,
    Reflect,
    PreparatoryTouch,
    Groundwork,
    DelicateSynthesis,
    IntensiveSynthesis,
    TrainedEye,
    HeartAndSoul,
    PrudentSynthesis,
    TrainedFinesse,
    RefinedTouch,
    ComboRefinedTouch,
    QuickInnovation,
    ImmaculateMend,
    TrainedPerfection,
}

/// What the previous move leaves behind for the next one.
///
/// `SynthesisBegin` is the state before the first move: only there the
/// opening moves (Muscle Memory, Reflect, Trained Eye) may be used.
/// `BasicTouch` and `StandardTouch` enable the discounted follow-ups.
#[derive(Clone, Copy, Debug, PartialEq, Eq, Structural, Hash)]
pub enum Combo {
    NoCombo,
    SynthesisBegin,
    BasicTouch,
    StandardTouch,
}

/// Number of moves in the catalogue; identifiers are `0..ACTION_COUNT`.
pub const ACTION_COUNT: u8 = 34;

impl Action {
    /// The position of the move in the catalogue.
    pub open spec fn spec_id(self) -> u8 {
        match self {
            Action::BasicSynthesis => 0u8,
            Action::BasicTouch => 1u8,
            Action::MasterMend => 2u8,
            Action::Observe => 3u8,
            Action::TricksOfTheTrade => 4u8,
            Action::WasteNot => 5u8,
            Action::Veneration => 6u8,
            Action::StandardTouch => 7u8,
            Action::ComboStandardTouch => 8u8,
            Action::GreatStrides => 9u8,
            Action::Innovation => 10u8,
            Action::WasteNot2 => 11u8,
            Action::ByregotsBlessing => 12u8,
            Action::PreciseTouch => 13u8,
            Action::MuscleMemory => 14u8,
            Action::CarefulSynthesis => 15u8,
            Action::Manipulation => 16u8,
            Action::PrudentTouch => 17u8,
            Action::AdvancedTouch => 18u8,
            Action::ComboAdvancedTouch => 19u8,
            Action::Reflect => 20u8,
            Action::PreparatoryTouch => 21u8,
            Action::Groundwork => 22u8,
            Action::DelicateSynthesis => 23u8,
            Action::IntensiveSynthesis => 24u8,
            Action::TrainedEye => 25u8,
            Action::HeartAndSoul => 26u8,
            Action::PrudentSynthesis => 27u8,
            Action::TrainedFinesse => 28u8,
            Action::RefinedTouch => 29u8,
            Action::ComboRefinedTouch => 30u8,
            Action::QuickInnovation => 31u8,
            Action::ImmaculateMend => 32u8,
            Action::TrainedPerfection => 33u8,
        }
    }

    pub fn id(self) -> (r: u8)
        ensures
            r == self.spec_id(),
            r < ACTION_COUNT,
    {
        match self {
            Action::BasicSynthesis => 0u8,
            Action::BasicTouch => 1u8,
            Action::MasterMend => 2u8,
            Action::Observe => 3u8,
            Action::TricksOfTheTrade => 4u8,
            Action::WasteNot => 5u8,
            Action::Veneration => 6u8,
            Action::StandardTouch => 7u8,
            Action::ComboStandardTouch => 8u8,
            Action::GreatStrides => 9u8,
            Action::Innovation => 10u8,
            Action::WasteNot2 => 11u8,
            Action::ByregotsBlessing => 12u8,
            Action::PreciseTouch => 13u8,
            Action::MuscleMemory => 14u8,
            Action::CarefulSynthesis => 15u8,
            Action::Manipulation => 16u8,
            Action::PrudentTouch => 17u8,
            Action::AdvancedTouch => 18u8,
            Action::ComboAdvancedTouch => 19u8,
            Action::Reflect => 20u8,
            Action::PreparatoryTouch => 21u8,
            Action::Groundwork => 22u8,
            Action::DelicateSynthesis => 23u8,
            Action::IntensiveSynthesis => 24u8,
            Action::TrainedEye => 25u8,
            Action::HeartAndSoul => 26u8,
            Action::PrudentSynthesis => 27u8,
            Action::TrainedFinesse => 28u8,
            Action::RefinedTouch => 29u8,
            Action::ComboRefinedTouch => 30u8,
            Action::QuickInnovation => 31u8,
            Action::ImmaculateMend => 32u8,
            Action::TrainedPerfection => 33u8,
        }
    }

    /// The move with the given identifier, if there is one.
    pub open spec fn spec_from_id(id: u8) -> Option<Action> {
        if id == 0 {
            Some(Action::BasicSynthesis)
        }         else if id == 1 {
            Some(Action::BasicTouch)
        }         else if id == 2 {
            Some(Action::MasterMend)
        }         else if id == 3 {
            Some(Action::Observe)
        }         else if id == 4 {
            Some(Action::TricksOfTheTrade)
        }         else if id == 5 {
            Some(Action::WasteNot)
        }         else if id == 6 {
            Some(Action::Veneration)
        }         else if id == 7 {
            Some(Action::StandardTouch)
        }         else if id == 8 {
            Some(Action::ComboStandardTouch)
        }         else if id == 9 {
            Some(Action::GreatStrides)
        }         else if id == 10 {
            Some(Action::Innovation)
        }         else if id == 11 {
            Some(Action::WasteNot2)
        }         else if id == 12 {
            Some(Action::ByregotsBlessing)
        }         else if id == 13 {
            Some(Action::PreciseTouch)
        }         else if id == 14 {
            Some(Action::MuscleMemory)
        }         else if id == 15 {
            Some(Action::CarefulSynthesis)
        }         else if id == 16 {
            Some(Action::Manipulation)
        }         else if id == 17 {
            Some(Action::PrudentTouch)
        }         else if id == 18 {
            Some(Action::AdvancedTouch)
        }         else if id == 19 {
            Some(Action::ComboAdvancedTouch)
        }         else if id == 20 {
            Some(Action::Reflect)
        }         else if id == 21 {
            Some(Action::PreparatoryTouch)
        }         else if id == 22 {
            Some(Action::Groundwork)
        }         else if id == 23 {
            Some(Action::DelicateSynthesis)
        }         else if id == 24 {
            Some(Action::IntensiveSynthesis)
        }         else if id == 25 {
            Some(Action::TrainedEye)
        }         else if id == 26 {
            Some(Action::HeartAndSoul)
        }         else if id == 27 {
            Some(Action::PrudentSynthesis)
        }         else if id == 28 {
            Some(Action::TrainedFinesse)
        }         else if id == 29 {
            Some(Action::RefinedTouch)
        }         else if id == 30 {
            Some(Action::ComboRefinedTouch)
        }         else if id == 31 {
            Some(Action::QuickInnovation)
        }         else if id == 32 {
            Some(Action::ImmaculateMend)
        }         else if id == 33 {
            Some(Action::TrainedPerfection)
        } else {
            None
        }
    }

    pub fn from_id(id: u8) -> (r: Option<Action>)
        ensures
            r == Action::spec_from_id(id),
            r is Some <==> id < ACTION_COUNT,
            r matches Some(a) ==> a.spec_id() == id,
    {
        match id {
            0u8 => Some(Action::BasicSynthesis),
            1u8 => Some(Action::BasicTouch),
            2u8 => Some(Action::MasterMend),
            3u8 => Some(Action::Observe),
            4u8 => Some(Action::TricksOfTheTrade),
            5u8 => Some(Action::WasteNot),
            6u8 => Some(Action::Veneration),
            7u8 => Some(Action::StandardTouch),
            8u8 => Some(Action::ComboStandardTouch),
            9u8 => Some(Action::GreatStrides),
            10u8 => Some(Action::Innovation),
            11u8 => Some(Action::WasteNot2),
            12u8 => Some(Action::ByregotsBlessing),
            13u8 => Some(Action::PreciseTouch),
            14u8 => Some(Action::MuscleMemory),
            15u8 => Some(Action::CarefulSynthesis),
            16u8 => Some(Action::Manipulation),
            17u8 => Some(Action::PrudentTouch),
            18u8 => Some(Action::AdvancedTouch),
            19u8 => Some(Action::ComboAdvancedTouch),
            20u8 => Some(Action::Reflect),
            21u8 => Some(Action::PreparatoryTouch),
            22u8 => Some(Action::Groundwork),
            23u8 => Some(Action::DelicateSynthesis),
            24u8 => Some(Action::IntensiveSynthesis),
            25u8 => Some(Action::TrainedEye),
            26u8 => Some(Action::HeartAndSoul),
            27u8 => Some(Action::PrudentSynthesis),
            28u8 => Some(Action::TrainedFinesse),
            29u8 => Some(Action::RefinedTouch),
            30u8 => Some(Action::ComboRefinedTouch),
            31u8 => Some(Action::QuickInnovation),
            32u8 => Some(Action::ImmaculateMend),
            33u8 => Some(Action::TrainedPerfection),
            _ => None,
        }
    }

    /// Job level at which the move is unlocked.
    pub open spec fn spec_level_requirement(self) -> u8 {
        match self {
            Action::BasicSynthesis => 1u8,
            Action::BasicTouch => 5u8,
            Action::MasterMend => 7u8,
            Action::Observe | Action::TricksOfTheTrade => 13u8,
            Action::WasteNot | Action::Veneration => 15u8,
            Action::StandardTouch | Action::ComboStandardTouch => 18u8,
            Action::GreatStrides => 21u8,
            Action::Innovation => 26u8,
            Action::WasteNot2 => 47u8,
            Action::ByregotsBlessing => 50u8,
            Action::PreciseTouch => 53u8,
            Action::MuscleMemory => 54u8,
            Action::CarefulSynthesis => 62u8,
            Action::Manipulation => 65u8,
            Action::PrudentTouch => 66u8,
            Action::AdvancedTouch | Action::ComboAdvancedTouch => 68u8,
            Action::Reflect => 69u8,
            Action::PreparatoryTouch => 71u8,
            Action::Groundwork => 72u8,
            Action::DelicateSynthesis => 76u8,
            Action::IntensiveSynthesis => 78u8,
            Action::TrainedEye => 80u8,
            Action::HeartAndSoul => 86u8,
            Action::PrudentSynthesis => 88u8,
            Action::TrainedFinesse => 90u8,
            Action::RefinedTouch | Action::ComboRefinedTouch => 92u8,
            Action::QuickInnovation => 96u8,
            Action::ImmaculateMend => 98u8,
            Action::TrainedPerfection => 100u8,
        }
    }

    pub fn level_requirement(self) -> (r: u8)
        ensures
            r == self.spec_level_requirement(),
    {
        match self {
            Action::BasicSynthesis => 1u8,
            Action::BasicTouch => 5u8,
            Action::MasterMend => 7u8,
            Action::Observe | Action::TricksOfTheTrade => 13u8,
            Action::WasteNot | Action::Veneration => 15u8,
            Action::StandardTouch | Action::ComboStandardTouch => 18u8,
            Action::GreatStrides => 21u8,
            Action::Innovation => 26u8,
            Action::WasteNot2 => 47u8,
            Action::ByregotsBlessing => 50u8,
            Action::PreciseTouch => 53u8,
            Action::MuscleMemory => 54u8,
            Action::CarefulSynthesis => 62u8,
            Action::Manipulation => 65u8,
            Action::PrudentTouch => 66u8,
            Action::AdvancedTouch | Action::ComboAdvancedTouch => 68u8,
            Action::Reflect => 69u8,
            Action::PreparatoryTouch => 71u8,
            Action::Groundwork => 72u8,
            Action::DelicateSynthesis => 76u8,
            Action::IntensiveSynthesis => 78u8,
            Action::TrainedEye => 80u8,
            Action::HeartAndSoul => 86u8,
            Action::PrudentSynthesis => 88u8,
            Action::TrainedFinesse => 90u8,
            Action::RefinedTouch | Action::ComboRefinedTouch => 92u8,
            Action::QuickInnovation => 96u8,
            Action::ImmaculateMend => 98u8,
            Action::TrainedPerfection => 100u8,
        }
    }

    /// Crafting points the move costs. No move in the catalogue has a
    /// negative cost; Tricks of the Trade refunds through its effect.
    pub open spec fn spec_cp_cost(self) -> i16 {
        match self {
            Action::BasicSynthesis | Action::TricksOfTheTrade | Action::HeartAndSoul | Action::QuickInnovation | Action::TrainedPerfection => 0i16,
            Action::BasicTouch | Action::Veneration | Action::ComboStandardTouch | Action::Innovation | Action::PreciseTouch | Action::ComboAdvancedTouch | Action::Groundwork | Action::PrudentSynthesis => 18i16,
            Action::MasterMend => 88i16,
            Action::Observe | Action::CarefulSynthesis => 7i16,
            Action::WasteNot => 56i16,
            Action::StandardTouch | Action::GreatStrides | Action::DelicateSynthesis | Action::TrainedFinesse => 32i16,
            Action::WasteNot2 => 98i16,
            Action::ByregotsBlessing | Action::RefinedTouch | Action::ComboRefinedTouch => 24i16,
            Action::MuscleMemory | Action::Reflect | Action::IntensiveSynthesis => 6i16,
            Action::Manipulation => 96i16,
            Action::PrudentTouch => 25i16,
            Action::AdvancedTouch => 46i16,
            Action::PreparatoryTouch => 40i16,
            Action::TrainedEye => 250i16,
            Action::ImmaculateMend => 112i16,
        }
    }

    pub fn cp_cost(self) -> (r: i16)
        ensures
            r == self.spec_cp_cost(),
            0 <= r <= 250,
    {
        match self {
            Action::BasicSynthesis | Action::TricksOfTheTrade | Action::HeartAndSoul | Action::QuickInnovation | Action::TrainedPerfection => 0i16,
            Action::BasicTouch | Action::Veneration | Action::ComboStandardTouch | Action::Innovation | Action::PreciseTouch | Action::ComboAdvancedTouch | Action::Groundwork | Action::PrudentSynthesis => 18i16,
            Action::MasterMend => 88i16,
            Action::Observe | Action::CarefulSynthesis => 7i16,
            Action::WasteNot => 56i16,
            Action::StandardTouch | Action::GreatStrides | Action::DelicateSynthesis | Action::TrainedFinesse => 32i16,
            Action::WasteNot2 => 98i16,
            Action::ByregotsBlessing | Action::RefinedTouch | Action::ComboRefinedTouch => 24i16,
            Action::MuscleMemory | Action::Reflect | Action::IntensiveSynthesis => 6i16,
            Action::Manipulation => 96i16,
            Action::PrudentTouch => 25i16,
            Action::AdvancedTouch => 46i16,
            Action::PreparatoryTouch => 40i16,
            Action::TrainedEye => 250i16,
            Action::ImmaculateMend => 112i16,
        }
    }

    /// Durability the move costs before Waste Not and Trained Perfection.
    pub open spec fn spec_base_durability_cost(self) -> i8 {
        match self {
            Action::BasicSynthesis | Action::BasicTouch | Action::StandardTouch | Action::ComboStandardTouch | Action::ByregotsBlessing | Action::PreciseTouch | Action::MuscleMemory | Action::CarefulSynthesis | Action::AdvancedTouch | Action::ComboAdvancedTouch | Action::Reflect | Action::DelicateSynthesis | Action::IntensiveSynthesis | Action::RefinedTouch | Action::ComboRefinedTouch => 10i8,
            Action::PrudentTouch | Action::PrudentSynthesis => 5i8,
            Action::PreparatoryTouch | Action::Groundwork => 20i8,
            _ => 0i8,
        }
    }

    pub fn base_durability_cost(self) -> (r: i8)
        ensures
            r == self.spec_base_durability_cost(),
            r == 0 || r == 5 || r == 10 || r == 20,
    {
        match self {
            Action::BasicSynthesis | Action::BasicTouch | Action::StandardTouch | Action::ComboStandardTouch | Action::ByregotsBlessing | Action::PreciseTouch | Action::MuscleMemory | Action::CarefulSynthesis | Action::AdvancedTouch | Action::ComboAdvancedTouch | Action::Reflect | Action::DelicateSynthesis | Action::IntensiveSynthesis | Action::RefinedTouch | Action::ComboRefinedTouch => 10i8,
            Action::PrudentTouch | Action::PrudentSynthesis => 5i8,
            Action::PreparatoryTouch | Action::Groundwork => 20i8,
            _ => 0i8,
        }
    }

    /// Progress the move yields, in percent of the base progress, before
    /// buffs. Some moves grow stronger at a higher job level.
    pub open spec fn spec_progress_efficiency(self, job_level: u8) -> u32 {
        match self {
            Action::BasicSynthesis => if job_level < 31 { 100u32 } else { 120u32 },
            Action::MuscleMemory => 300u32,
            Action::CarefulSynthesis => if job_level < 82 { 150u32 } else { 180u32 },
            Action::Groundwork => if job_level < 86 { 300u32 } else { 360u32 },
            Action::DelicateSynthesis => if job_level < 94 { 100u32 } else { 150u32 },
            Action::IntensiveSynthesis => 400u32,
            Action::PrudentSynthesis => 180u32,
            _ => 0u32,
        }
    }

    pub fn progress_efficiency(self, job_level: u8) -> (r: u32)
        ensures
            r == self.spec_progress_efficiency(job_level),
            r <= 400,
    {
        match self {
            Action::BasicSynthesis => if job_level < 31 { 100u32 } else { 120u32 },
            Action::MuscleMemory => 300u32,
            Action::CarefulSynthesis => if job_level < 82 { 150u32 } else { 180u32 },
            Action::Groundwork => if job_level < 86 { 300u32 } else { 360u32 },
            Action::DelicateSynthesis => if job_level < 94 { 100u32 } else { 150u32 },
            Action::IntensiveSynthesis => 400u32,
            Action::PrudentSynthesis => 180u32,
            _ => 0u32,
        }
    }

    /// Quality the move yields, in percent of the base quality, before
    /// buffs. Byregot's Blessing grows by 20 points per Inner Quiet stack.
    pub open spec fn spec_quality_efficiency(self, inner_quiet: u8) -> u32 {
        match self {
            Action::ByregotsBlessing => (100 + 20 * inner_quiet) as u32,
            Action::BasicTouch | Action::PrudentTouch | Action::DelicateSynthesis | Action::TrainedFinesse | Action::RefinedTouch | Action::ComboRefinedTouch => 100u32,
            Action::StandardTouch | Action::ComboStandardTouch => 125u32,
            Action::PreciseTouch | Action::AdvancedTouch | Action::ComboAdvancedTouch => 150u32,
            Action::Reflect => 300u32,
            Action::PreparatoryTouch => 200u32,
            _ => 0u32,
        }
    }

    pub fn quality_efficiency(self, inner_quiet: u8) -> (r: u32)
        ensures
            r == self.spec_quality_efficiency(inner_quiet),
            inner_quiet <= 10 ==> r <= 300,
    {
        match self {
            Action::ByregotsBlessing => 100u32 + 20u32 * (inner_quiet as u32),
            Action::BasicTouch | Action::PrudentTouch | Action::DelicateSynthesis | Action::TrainedFinesse | Action::RefinedTouch | Action::ComboRefinedTouch => 100u32,
            Action::StandardTouch | Action::ComboStandardTouch => 125u32,
            Action::PreciseTouch | Action::AdvancedTouch | Action::ComboAdvancedTouch => 150u32,
            Action::Reflect => 300u32,
            Action::PreparatoryTouch => 200u32,
            _ => 0u32,
        }
    }

    /// Seconds a macro has to wait after the move.
    pub open spec fn spec_time_cost(self) -> u8 {
        match self {
            Action::WasteNot | Action::Veneration | Action::GreatStrides | Action::Innovation | Action::WasteNot2 | Action::Manipulation => 2u8,
            _ => 3u8,
        }
    }

    pub fn time_cost(self) -> (r: u8)
        ensures
            r == self.spec_time_cost(),
            r == 2 || r == 3,
    {
        match self {
            Action::WasteNot | Action::Veneration | Action::GreatStrides | Action::Innovation | Action::WasteNot2 | Action::Manipulation => 2u8,
            _ => 3u8,
        }
    }

    /// The name under which the game lists the move.
    pub open spec fn spec_display_name(self) -> Seq<char> {
        match self {
            Action::BasicSynthesis => "Basic Synthesis"@,
            Action::BasicTouch => "Basic Touch"@,
            Action::MasterMend => "Master's Mend"@,
            Action::Observe => "Observe"@,
            Action::TricksOfTheTrade => "Tricks of the Trade"@,
            Action::WasteNot => "Waste Not"@,
            Action::Veneration => "Veneration"@,
            Action::StandardTouch | Action::ComboStandardTouch => "Standard Touch"@,
            Action::GreatStrides => "Great Strides"@,
            Action::Innovation => "Innovation"@,
            Action::WasteNot2 => "Waste Not II"@,
            Action::ByregotsBlessing => "Byregot's Blessing"@,
            Action::PreciseTouch => "Precise Touch"@,
            Action::MuscleMemory => "Muscle Memory"@,
            Action::CarefulSynthesis => "Careful Synthesis"@,
            Action::Manipulation => "Manipulation"@,
            Action::PrudentTouch => "Prudent Touch"@,
            Action::AdvancedTouch | Action::ComboAdvancedTouch => "Advanced Touch"@,
            Action::Reflect => "Reflect"@,
            Action::PreparatoryTouch => "Preparatory Touch"@,
            Action::Groundwork => "Groundwork"@,
            Action::DelicateSynthesis => "Delicate Synthesis"@,
            Action::IntensiveSynthesis => "Intensive Synthesis"@,
            Action::TrainedEye => "Trained Eye"@,
            Action::HeartAndSoul => "Heart and Soul"@,
            Action::PrudentSynthesis => "Prudent Synthesis"@,
            Action::TrainedFinesse => "Trained Finesse"@,
            Action::RefinedTouch | Action::ComboRefinedTouch => "Refined Touch"@,
            Action::QuickInnovation => "Quick Innovation"@,
            Action::ImmaculateMend => "Immaculate Mend"@,
            Action::TrainedPerfection => "Trained Perfection"@,
        }
    }

    pub fn display_name(self) -> (r: &'static str)
        ensures
            r@ == self.spec_display_name(),
    {
        match self {
            Action::BasicSynthesis => "Basic Synthesis",
            Action::BasicTouch => "Basic Touch",
            Action::MasterMend => "Master's Mend",
            Action::Observe => "Observe",
            Action::TricksOfTheTrade => "Tricks of the Trade",
            Action::WasteNot => "Waste Not",
            Action::Veneration => "Veneration",
            Action::StandardTouch | Action::ComboStandardTouch => "Standard Touch",
            Action::GreatStrides => "Great Strides",
            Action::Innovation => "Innovation",
            Action::WasteNot2 => "Waste Not II",
            Action::ByregotsBlessing => "Byregot's Blessing",
            Action::PreciseTouch => "Precise Touch",
            Action::MuscleMemory => "Muscle Memory",
            Action::CarefulSynthesis => "Careful Synthesis",
            Action::Manipulation => "Manipulation",
            Action::PrudentTouch => "Prudent Touch",
            Action::AdvancedTouch | Action::ComboAdvancedTouch => "Advanced Touch",
            Action::Reflect => "Reflect",
            Action::PreparatoryTouch => "Preparatory Touch",
            Action::Groundwork => "Groundwork",
            Action::DelicateSynthesis => "Delicate Synthesis",
            Action::IntensiveSynthesis => "Intensive Synthesis",
            Action::TrainedEye => "Trained Eye",
            Action::HeartAndSoul => "Heart and Soul",
            Action::PrudentSynthesis => "Prudent Synthesis",
            Action::TrainedFinesse => "Trained Finesse",
            Action::RefinedTouch | Action::ComboRefinedTouch => "Refined Touch",
            Action::QuickInnovation => "Quick Innovation",
            Action::ImmaculateMend => "Immaculate Mend",
            Action::TrainedPerfection => "Trained Perfection",
        }
    }

    /// The combo state that the move demands, if it demands one.
    pub open spec fn spec_required_combo(self) -> Option<Combo> {
        match self {
            Action::MuscleMemory | Action::Reflect | Action::TrainedEye => Some(
                Combo::SynthesisBegin,
            ),
            Action::ComboStandardTouch | Action::ComboRefinedTouch => Some(Combo::BasicTouch),
            Action::ComboAdvancedTouch => Some(Combo::StandardTouch),
            _ => None,
        }
    }

    pub fn required_combo(self) -> (r: Option<Combo>)
        ensures
            r == self.spec_required_combo(),
    {
        match self {
            Action::MuscleMemory | Action::Reflect | Action::TrainedEye => Some(
                Combo::SynthesisBegin,
            ),
            Action::ComboStandardTouch | Action::ComboRefinedTouch => Some(Combo::BasicTouch),
            Action::ComboAdvancedTouch => Some(Combo::StandardTouch),
            _ => None,
        }
    }

    /// The combo state that the move leaves behind. Observe opens the same
    /// follow-up as a Standard Touch made in combo.
    pub open spec fn spec_to_combo(self) -> Combo {
        match self {
            Action::BasicTouch => Combo::BasicTouch,
            Action::ComboStandardTouch | Action::Observe => Combo::StandardTouch,
            _ => Combo::NoCombo,
        }
    }

    pub fn to_combo(self) -> (r: Combo)
        ensures
            r == self.spec_to_combo(),
            r != Combo::SynthesisBegin,
    {
        match self {
            Action::BasicTouch => Combo::BasicTouch,
            Action::ComboStandardTouch | Action::Observe => Combo::StandardTouch,
            _ => Combo::NoCombo,
        }
    }

    /// Inner Quiet stacks that the move adds when it raises quality.
    pub open spec fn spec_inner_quiet_gain(self) -> u8 {
        match self {
            Action::Reflect | Action::PreciseTouch | Action::PreparatoryTouch
            | Action::ComboRefinedTouch => 2u8,
            _ => 1u8,
        }
    }

    pub fn inner_quiet_gain(self) -> (r: u8)
        ensures
            r == self.spec_inner_quiet_gain(),
    {
        match self {
            Action::Reflect | Action::PreciseTouch | Action::PreparatoryTouch
            | Action::ComboRefinedTouch => 2u8,
            _ => 1u8,
        }
    }
}

/// Identifiers and moves correspond one to one.
pub proof fn lemma_id_round_trip(a: Action)
    ensures
        a.spec_id() < ACTION_COUNT,
        Action::spec_from_id(a.spec_id()) == Some(a),
{
}

/// Two moves with the same identifier are the same move.
pub proof fn lemma_id_injective(a: Action, b: Action)
    requires
        a.spec_id() == b.spec_id(),
    ensures
        a == b,
{
    lemma_id_round_trip(a);
    lemma_id_round_trip(b);
}

} // verus!
