use vstd::prelude::*;

verus! {

/// A token that can be spent once per craft.
#[derive(Clone, Copy, Debug, PartialEq, Eq, Structural, Hash)]
pub enum SingleUse {
    Available,
    Active,
    Unavailable,
}

impl SingleUse {
    /// 2 while unspent, 1 while in force, 0 once gone: every use lowers it.
    pub open spec fn rank(self) -> nat {
        match self {
            SingleUse::Available => 2,
            SingleUse::Active => 1,
            SingleUse::Unavailable => 0,
        }
    }

    pub open spec fn spec_code(self) -> u32 {
        match self {
            SingleUse::Available => 0u32,
            SingleUse::Active => 1u32,
            SingleUse::Unavailable => 2u32,
        }
    }

    pub fn code(self) -> (r: u32)
        ensures
            r == self.spec_code(),
            r <= 2,
    {
        match self {
            SingleUse::Available => 0u32,
            SingleUse::Active => 1u32,
            SingleUse::Unavailable => 2u32,
        }
    }
}

pub const MAX_INNER_QUIET: u8 = 10;

pub const MAX_GREAT_STRIDES: u8 = 3;

pub const MAX_INNOVATION: u8 = 4;

pub const MAX_VENERATION: u8 = 4;

pub const MAX_MUSCLE_MEMORY: u8 = 5;

pub const MAX_WASTE_NOT: u8 = 8;

pub const MAX_MANIPULATION: u8 = 8;

pub const MAX_GUARD: u8 = 1;

/// The buffs in force: for each its stack count or the number of turns it
/// still lasts, and the state of the three single-use tokens.
#[derive(Clone, Copy, Debug, PartialEq, Eq, Structural, Hash)]
pub struct Effects {
    pub inner_quiet: u8,
    pub great_strides: u8,
    pub innovation: u8,
    pub veneration: u8,
    pub muscle_memory: u8,
    pub waste_not: u8,
    pub manipulation: u8,
    /// While non-zero, the unfavourable condition cannot strike.
    pub guard: u8,
    pub trained_perfection: SingleUse,
    pub heart_and_soul: SingleUse,
    pub quick_innovation: SingleUse,
}

/// One step of a counter towards zero.
pub open spec fn spec_tick(v: u8) -> u8 {
    if v > 0 {
        (v - 1) as u8
    } else {
        0
    }
}

fn tick(v: u8) -> (r: u8)
    ensures
        r == spec_tick(v),
{
    if v > 0 {
        v - 1
    } else {
        0
    }
}

impl Effects {
    /// Every counter is within its published cap.
    pub open spec fn valid(self) -> bool {
        &&& self.inner_quiet <= MAX_INNER_QUIET
        &&& self.great_strides <= MAX_GREAT_STRIDES
        &&& self.innovation <= MAX_INNOVATION
        &&& self.veneration <= MAX_VENERATION
        &&& self.muscle_memory <= MAX_MUSCLE_MEMORY
        &&& self.waste_not <= MAX_WASTE_NOT
        &&& self.manipulation <= MAX_MANIPULATION
        &&& self.guard <= MAX_GUARD
    }

    /// No buff in force, every token unspent.
    pub open spec fn spec_new() -> Effects {
        Effects {
            inner_quiet: 0,
            great_strides: 0,
            innovation: 0,
            veneration: 0,
            muscle_memory: 0,
            waste_not: 0,
            manipulation: 0,
            guard: 0,
            trained_perfection: SingleUse::Available,
            heart_and_soul: SingleUse::Available,
            quick_innovation: SingleUse::Available,
        }
    }

    pub fn new() -> (r: Effects)
        ensures
            r == Effects::spec_new(),
            r.valid(),
    {
        Effects {
            inner_quiet: 0,
            great_strides: 0,
            innovation: 0,
            veneration: 0,
            muscle_memory: 0,
            waste_not: 0,
            manipulation: 0,
            guard: 0,
            trained_perfection: SingleUse::Available,
            heart_and_soul: SingleUse::Available,
            quick_innovation: SingleUse::Available,
        }
    }

    /// Whether every counter is within its cap, computed.
    pub fn is_valid(self) -> (r: bool)
        ensures
            r == self.valid(),
    {
        self.inner_quiet <= MAX_INNER_QUIET && self.great_strides <= MAX_GREAT_STRIDES
            && self.innovation <= MAX_INNOVATION && self.veneration <= MAX_VENERATION
            && self.muscle_memory <= MAX_MUSCLE_MEMORY && self.waste_not <= MAX_WASTE_NOT
            && self.manipulation <= MAX_MANIPULATION && self.guard <= MAX_GUARD
    }

    pub fn with_inner_quiet(self, v: u8) -> (r: Effects)
        ensures
            r == (Effects { inner_quiet: v, ..self }),
    {
        Effects { inner_quiet: v, ..self }
    }

    pub fn with_great_strides(self, v: u8) -> (r: Effects)
        ensures
            r == (Effects { great_strides: v, ..self }),
    {
        Effects { great_strides: v, ..self }
    }

    pub fn with_innovation(self, v: u8) -> (r: Effects)
        ensures
            r == (Effects { innovation: v, ..self }),
    {
        Effects { innovation: v, ..self }
    }

    pub fn with_veneration(self, v: u8) -> (r: Effects)
        ensures
            r == (Effects { veneration: v, ..self }),
    {
        Effects { veneration: v, ..self }
    }

    pub fn with_muscle_memory(self, v: u8) -> (r: Effects)
        ensures
            r == (Effects { muscle_memory: v, ..self }),
    {
        Effects { muscle_memory: v, ..self }
    }

    pub fn with_waste_not(self, v: u8) -> (r: Effects)
        ensures
            r == (Effects { waste_not: v, ..self }),
    {
        Effects { waste_not: v, ..self }
    }

    pub fn with_manipulation(self, v: u8) -> (r: Effects)
        ensures
            r == (Effects { manipulation: v, ..self }),
    {
        Effects { manipulation: v, ..self }
    }

    pub fn with_guard(self, v: u8) -> (r: Effects)
        ensures
            r == (Effects { guard: v, ..self }),
    {
        Effects { guard: v, ..self }
    }

    pub fn with_trained_perfection(self, v: SingleUse) -> (r: Effects)
        ensures
            r == (Effects { trained_perfection: v, ..self }),
    {
        Effects { trained_perfection: v, ..self }
    }

    pub fn with_heart_and_soul(self, v: SingleUse) -> (r: Effects)
        ensures
            r == (Effects { heart_and_soul: v, ..self }),
    {
        Effects { heart_and_soul: v, ..self }
    }

    pub fn with_quick_innovation(self, v: SingleUse) -> (r: Effects)
        ensures
            r == (Effects { quick_innovation: v, ..self }),
    {
        Effects { quick_innovation: v, ..self }
    }

    /// The end of a turn: every timed buff loses one turn. Inner Quiet is a
    /// stack, not a timer, and stays.
    pub open spec fn spec_tick_down(self) -> Effects {
        Effects {
            great_strides: spec_tick(self.great_strides),
            innovation: spec_tick(self.innovation),
            veneration: spec_tick(self.veneration),
            muscle_memory: spec_tick(self.muscle_memory),
            waste_not: spec_tick(self.waste_not),
            manipulation: spec_tick(self.manipulation),
            guard: spec_tick(self.guard),
            ..self
        }
    }

    pub fn tick_down(self) -> (r: Effects)
        ensures
            r == self.spec_tick_down(),
            self.valid() ==> r.valid(),
    {
        Effects {
            great_strides: tick(self.great_strides),
            innovation: tick(self.innovation),
            veneration: tick(self.veneration),
            muscle_memory: tick(self.muscle_memory),
            waste_not: tick(self.waste_not),
            manipulation: tick(self.manipulation),
            guard: tick(self.guard),
            ..self
        }
    }

    /// The sum of the tokens' ranks: no move raises it.
    pub open spec fn token_rank(self) -> nat {
        self.trained_perfection.rank() + self.heart_and_soul.rank()
            + self.quick_innovation.rank()
    }

    /// The three tokens, two bits each.
    pub open spec fn spec_token_bits(self) -> int {
        self.trained_perfection.spec_code() + 4 * self.heart_and_soul.spec_code() + 16
            * self.quick_innovation.spec_code()
    }

    /// The record packed into 30 bits, lowest field first: Inner Quiet (4
    /// bits), Great Strides (2), Innovation (3), Veneration (3), Muscle
    /// Memory (3), Waste Not (4), Manipulation (4), guard (1), and two bits
    /// for each token.
    pub open spec fn spec_bits(self) -> u32 {
        (self.inner_quiet + 0x10 * self.great_strides + 0x40 * self.innovation + 0x200
            * self.veneration + 0x1000 * self.muscle_memory + 0x8000 * self.waste_not + 0x8_0000
            * self.manipulation + 0x80_0000 * self.guard + 0x100_0000
            * self.spec_token_bits()) as u32
    }

    pub fn to_bits(self) -> (r: u32)
        requires
            self.valid(),
        ensures
            r == self.spec_bits(),
            r < 0x4000_0000,
    {
        let tokens: u32 = self.trained_perfection.code() + 4 * self.heart_and_soul.code() + 16
            * self.quick_innovation.code();
        self.inner_quiet as u32 + 0x10 * (self.great_strides as u32) + 0x40 * (
        self.innovation as u32) + 0x200 * (self.veneration as u32) + 0x1000 * (
        self.muscle_memory as u32) + 0x8000 * (self.waste_not as u32) + 0x8_0000 * (
        self.manipulation as u32) + 0x80_0000 * (self.guard as u32) + 0x100_0000 * tokens
    }
}

impl Default for Effects {
    fn default() -> (r: Effects)
        ensures
            r == Effects::spec_new(),
    {
        Effects::new()
    }
}

/// The packed record of valid counters fits 30 bits.
pub proof fn lemma_bits_bound(e: Effects)
    requires
        e.valid(),
    ensures
        0 <= e.spec_bits() < 0x4000_0000,
        0 <= e.spec_token_bits() < 64,
{
}

/// The packing loses nothing: two valid records with the same bits are equal.
pub proof fn lemma_bits_injective(a: Effects, b: Effects)
    requires
        a.valid(),
        b.valid(),
        a.spec_bits() == b.spec_bits(),
    ensures
        a == b,
{
    let ta = a.spec_token_bits();
    let tb = b.spec_token_bits();
    assert(0 <= ta < 64 && 0 <= tb < 64);
    assert(a.inner_quiet == b.inner_quiet);
    assert(a.great_strides == b.great_strides);
    assert(a.innovation == b.innovation);
    assert(a.veneration == b.veneration);
    assert(a.muscle_memory == b.muscle_memory);
    assert(a.waste_not == b.waste_not);
    assert(a.manipulation == b.manipulation);
    assert(a.guard == b.guard);
    assert(ta == tb);
    assert(a.trained_perfection.spec_code() == b.trained_perfection.spec_code());
    assert(a.heart_and_soul.spec_code() == b.heart_and_soul.spec_code());
    assert(a.quick_innovation.spec_code() == b.quick_innovation.spec_code());
}

} // verus!
