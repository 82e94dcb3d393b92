//! Counters of the motions a motion validator has checked.
use vstd::prelude::*;

verus! {

/// How many checked motions were found valid and how many invalid.
#[derive(Clone, Copy, Debug)]
pub struct MotionCheckStats {
    pub valid: u32,
    pub invalid: u32,
}

impl Default for MotionCheckStats {
    fn default() -> (r: MotionCheckStats)
        ensures
            r.valid == 0,
            r.invalid == 0,
    {
        MotionCheckStats { valid: 0, invalid: 0 }
    }
}

impl MotionCheckStats {
    pub fn valid_motion_count(&self) -> (r: u32)
        ensures
            r == self.valid,
    {
        self.valid
    }

    pub fn invalid_motion_count(&self) -> (r: u32)
        ensures
            r == self.invalid,
    {
        self.invalid
    }

    /// All motions checked so far, valid or not.
    pub fn checked_motion_count(&self) -> (r: u32)
        requires
            self.valid + self.invalid <= u32::MAX,
        ensures
            r == self.valid + self.invalid,
    {
        self.valid + self.invalid
    }

    pub fn reset(&mut self)
        ensures
            final(self).valid == 0,
            final(self).invalid == 0,
    {
        self.valid = 0;
        self.invalid = 0;
    }
}

} // verus!
