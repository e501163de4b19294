use vstd::prelude::*;
use crate::mask::ActionMask;

verus! {

/// What stays fixed during one solve: the crafter's and the recipe's numbers.
#[derive(Clone, Copy, Debug)]
pub struct Settings {
    pub max_cp: i16,
    pub max_durability: i8,
    pub max_progress: u16,
    pub max_quality: u16,
    pub base_progress: u16,
    pub base_quality: u16,
    pub job_level: u8,
    pub allowed_actions: ActionMask,
    /// Whether quality is counted under the worst case of the conditions.
    pub adversarial: bool,
}

impl Settings {
    /// Every maximum is positive and the job level is one the game has.
    pub open spec fn valid(self) -> bool {
        &&& self.max_cp > 0
        &&& self.max_durability > 0
        &&& self.max_progress > 0
        &&& self.max_quality > 0
        &&& 1 <= self.job_level <= 100
    }

    pub fn is_valid(&self) -> (r: bool)
        ensures
            r == self.valid(),
    {
        self.max_cp > 0 && self.max_durability > 0 && self.max_progress > 0 && self.max_quality
            > 0 && 1 <= self.job_level && self.job_level <= 100
    }
}

} // verus!
