use vstd::prelude::*;
use crate::actions::Combo;
use crate::effects::Effects;
use crate::effects::lemma_bits_bound;
use crate::effects::lemma_bits_injective;
use crate::state::SimulationState;

verus! {

/// What the bound on the quality still to be had depends on: the crafting
/// points, with the durability folded into them, the buffs and the combo.
/// Progress and the quality already made are left out.
#[derive(Clone, Copy, Debug, PartialEq, Eq, Structural, Hash)]
pub struct ReducedState {
    pub cp: i16,
    pub combo: Combo,
    pub effects: Effects,
}

/// The durability that stands for "never runs out".
pub const UNBOUNDED_DURABILITY: i8 = i8::MAX;

/// Crafting points that `used` units of 5 durability cost to restore, at
/// `base_cost` points a unit: either each unit is paid in full, or Waste
/// Not is paid for at `waste_not_cost` a turn and halves the units, rounded
/// up. The cheaper of the two.
pub open spec fn spec_durability_price(used: int, base_cost: int, waste_not_cost: int) -> int {
    let full = used * base_cost;
    let halved = (used + 1) / 2 * base_cost + waste_not_cost;
    if full <= halved {
        full
    } else {
        halved
    }
}

fn durability_price(used: i32, base_cost: i16, waste_not_cost: i16) -> (r: i32)
    requires
        0 <= used <= 51,
    ensures
        r == spec_durability_price(used as int, base_cost as int, waste_not_cost as int),
        -0x20_0000 <= r <= 0x20_0000,
{
    assert(-51 * 32768 <= used * base_cost <= 51 * 32767) by (nonlinear_arith)
        requires
            0 <= used <= 51,
            -32768 <= base_cost <= 32767,
    ;
    assert(-26 * 32768 <= ((used + 1) / 2) * base_cost <= 26 * 32767) by (nonlinear_arith)
        requires
            0 <= (used + 1) / 2 <= 26,
            -32768 <= base_cost <= 32767,
    ;
    let full: i32 = used * (base_cost as i32);
    let halved: i32 = (used + 1) / 2 * (base_cost as i32) + waste_not_cost as i32;
    if full <= halved {
        full
    } else {
        halved
    }
}

/// `v` held within what 16 signed bits hold.
pub open spec fn spec_clamp_cp(v: int) -> i16 {
    if v > i16::MAX {
        i16::MAX
    } else if v < i16::MIN {
        i16::MIN
    } else {
        v as i16
    }
}

pub fn clamp_cp(v: i32) -> (r: i16)
    ensures
        r == spec_clamp_cp(v as int),
{
    if v > i16::MAX as i32 {
        i16::MAX
    } else if v < i16::MIN as i32 {
        i16::MIN
    } else {
        v as i16
    }
}

/// Units of 5 durability that `durability` lies below "never runs out".
pub open spec fn spec_used_units(durability: i8) -> int {
    (UNBOUNDED_DURABILITY - durability) / 5
}

/// The code of a combo state in a key.
pub open spec fn spec_combo_code(combo: Combo) -> u64 {
    match combo {
        Combo::NoCombo => 0u64,
        Combo::SynthesisBegin => 1u64,
        Combo::BasicTouch => 2u64,
        Combo::StandardTouch => 3u64,
    }
}

pub fn combo_code(combo: Combo) -> (r: u64)
    ensures
        r == spec_combo_code(combo),
{
    match combo {
        Combo::NoCombo => 0u64,
        Combo::SynthesisBegin => 1u64,
        Combo::BasicTouch => 2u64,
        Combo::StandardTouch => 3u64,
    }
}

impl ReducedState {
    /// The counters are within their caps, and the buffs that a reduction
    /// turns into crafting points, and the guard, are cleared.
    pub open spec fn valid(self) -> bool {
        &&& self.effects.valid()
        &&& self.effects.manipulation == 0
        &&& self.effects.waste_not == 0
        &&& self.effects.guard == 0
    }

    /// The reduction of a state whose durability is counted down from
    /// "never runs out": what it has used is paid for in crafting points.
    /// Manipulation, Waste Not and the guard are dropped.
    pub open spec fn spec_from_state(
        state: SimulationState,
        base_durability_cost: i16,
        waste_not_cost: i16,
    ) -> ReducedState {
        ReducedState {
            cp: spec_clamp_cp(
                state.cp - spec_durability_price(
                    spec_used_units(state.durability),
                    base_durability_cost as int,
                    waste_not_cost as int,
                ),
            ),
            combo: state.combo,
            effects: Effects { manipulation: 0, waste_not: 0, guard: 0, ..state.effects },
        }
    }

    pub fn from_state(state: SimulationState, base_durability_cost: i16, waste_not_cost: i16) -> (r:
        ReducedState)
        ensures
            r == ReducedState::spec_from_state(state, base_durability_cost, waste_not_cost),
            state.effects.valid() ==> r.valid(),
    {
        let used: i32 = (UNBOUNDED_DURABILITY as i32 - state.durability as i32) / 5;
        let price = durability_price(used, base_durability_cost, waste_not_cost);
        ReducedState {
            cp: clamp_cp(state.cp as i32 - price),
            combo: state.combo,
            effects: Effects { manipulation: 0, waste_not: 0, guard: 0, ..state.effects },
        }
    }

    /// The state that stands for the reduced one: nothing made yet, and
    /// durability that never runs out.
    pub open spec fn spec_to_state(self) -> SimulationState {
        SimulationState {
            cp: self.cp,
            durability: UNBOUNDED_DURABILITY,
            progress: 0,
            unreliable_quality: [0u16, 0u16],
            effects: self.effects,
            combo: self.combo,
        }
    }

    pub fn to_state(self) -> (r: SimulationState)
        ensures
            r == self.spec_to_state(),
    {
        SimulationState {
            cp: self.cp,
            durability: UNBOUNDED_DURABILITY,
            progress: 0,
            unreliable_quality: [0u16, 0u16],
            effects: self.effects,
            combo: self.combo,
        }
    }

    /// The state as one number: the packed buffs in the low 30 bits, the
    /// combo in the next two, the crafting points above them.
    #[verifier::opaque]
    pub open spec fn spec_key(self) -> u64 {
        (self.effects.spec_bits() + 0x4000_0000 * spec_combo_code(self.combo) + 0x1_0000_0000 * (
        self.cp + 0x8000)) as u64
    }

    pub fn key(self) -> (r: u64)
        requires
            self.effects.valid(),
        ensures
            r == self.spec_key(),
    {
        proof {
            reveal(ReducedState::spec_key);
        }
        let points: u64 = (self.cp as i32 + 0x8000) as u64;
        self.effects.to_bits() as u64 + 0x4000_0000 * combo_code(self.combo) + 0x1_0000_0000
            * points
    }
}

/// Two states with valid counters and the same key are the same state.
pub proof fn lemma_key_injective(a: ReducedState, b: ReducedState)
    requires
        a.effects.valid(),
        b.effects.valid(),
        a.spec_key() == b.spec_key(),
    ensures
        a == b,
{
    reveal(ReducedState::spec_key);
    lemma_bits_bound(a.effects);
    lemma_bits_bound(b.effects);
    let ea = a.effects.spec_bits() as int;
    let eb = b.effects.spec_bits() as int;
    let ca = spec_combo_code(a.combo) as int;
    let cb = spec_combo_code(b.combo) as int;
    let pa = a.cp + 0x8000;
    let pb = b.cp + 0x8000;
    assert(0 <= ca < 4 && 0 <= cb < 4);
    assert(0 <= pa < 0x1_0000 && 0 <= pb < 0x1_0000);
    assert(a.spec_key() == ea + 0x4000_0000 * ca + 0x1_0000_0000 * pa);
    assert(b.spec_key() == eb + 0x4000_0000 * cb + 0x1_0000_0000 * pb);
    assert(pa == pb) by {
        if pa < pb {
            assert(0x1_0000_0000 * pb >= 0x1_0000_0000 * pa + 0x1_0000_0000);
        }
        if pb < pa {
            assert(0x1_0000_0000 * pa >= 0x1_0000_0000 * pb + 0x1_0000_0000);
        }
    }
    assert(ca == cb) by {
        if ca < cb {
            assert(0x4000_0000 * cb >= 0x4000_0000 * ca + 0x4000_0000);
        }
        if cb < ca {
            assert(0x4000_0000 * ca >= 0x4000_0000 * cb + 0x4000_0000);
        }
    }
    assert(ea == eb);
    assert(a.combo == b.combo);
    assert(a.cp == b.cp);
    lemma_bits_injective(a.effects, b.effects);
}

} // verus!
