//! A record of the energy a solver reached at some iteration and time.
use vstd::prelude::*;
use crate::qubo::QuboType;

verus! {

/// The energy reached at an iteration, with the time since the solver started.
#[derive(Clone, Copy, Debug, PartialEq, Eq, Structural)]
pub struct EnergyRecord {
    /// Nanoseconds since the solver started.
    pub time_stamp: u128,
    pub iteration_stamp: usize,
    pub energy: QuboType,
}

impl EnergyRecord {
    /// A record taken `time_stamp` nanoseconds after the start.
    pub fn create_with_time(time_stamp: u128, iteration_stamp: usize, energy: QuboType) -> (r:
        EnergyRecord)
        ensures
            r == (EnergyRecord { time_stamp, iteration_stamp, energy }),
    {
        EnergyRecord { time_stamp, iteration_stamp, energy }
    }

    /// A record taken at clock reading `now` for a solver started at clock
    /// reading `start_time`, both in nanoseconds.
    pub fn create(start_time: u128, now: u128, iteration: usize, energy: QuboType) -> (r:
        EnergyRecord)
        requires
            start_time <= now,
        ensures
            r == (EnergyRecord { time_stamp: (now - start_time) as u128, iteration_stamp: iteration, energy }),
    {
        Self::create_with_time(now - start_time, iteration, energy)
    }
}

} // verus!
