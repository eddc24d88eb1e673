//! Requested barrier counts and the named difficulty tiers.
use vstd::prelude::*;

verus! {

/// Number of cells along one side of the square grid.
pub const ROW_LENGTH: u8 = 6;

/// The largest number of barriers a board may be asked for.
pub const MAX_BARRIERS: u8 = 24;

/// Named presets for the number of barriers on a board.
#[derive(Clone, Copy, Debug, PartialEq, Eq, Structural)]
pub enum Difficulty {
    Easy,
    Medium,
    Hard,
    VeryHard,
}

impl Difficulty {
    /// The barrier count that a tier stands for.
    pub open spec fn spec_barrier_num(self) -> u8 {
        match self {
            Difficulty::Easy => 12,
            Difficulty::Medium => 16,
            Difficulty::Hard => 20,
            Difficulty::VeryHard => MAX_BARRIERS,
        }
    }

    pub fn barrier_num(&self) -> (r: u8)
        ensures
            r == self.spec_barrier_num(),
            r <= MAX_BARRIERS,
    {
        match *self {
            Difficulty::Easy => 12,
            Difficulty::Medium => 16,
            Difficulty::Hard => 20,
            Difficulty::VeryHard => MAX_BARRIERS,
        }
    }
}

/// A barrier count that has been checked against [`MAX_BARRIERS`].
#[derive(Clone, Copy, Debug, PartialEq, Eq, Structural)]
pub struct BarrierNum {
    value: u8,
}

impl BarrierNum {
    /// Well-formedness: the count never exceeds the maximum.
    pub closed spec fn wf(self) -> bool {
        self.value <= MAX_BARRIERS
    }

    pub closed spec fn spec_value(self) -> u8 {
        self.value
    }

    /// Accepts `value` exactly when it is at most [`MAX_BARRIERS`].
    pub fn new(value: u8) -> (r: Option<Self>)
        ensures
            r.is_none() <==> value > MAX_BARRIERS,
            r matches Some(n) ==> n.wf() && n.spec_value() == value,
    {
        if value > MAX_BARRIERS {
            return None;
        }
        Some(BarrierNum { value })
    }

    pub fn value(&self) -> (r: u8)
        requires
            self.wf(),
        ensures
            r == self.spec_value(),
            r <= MAX_BARRIERS,
    {
        self.value
    }
}

} // verus!
