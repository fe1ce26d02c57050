//! The shared control state: the desired power fraction and the latest
//! current estimate.

use vstd::prelude::*;

verus! {

/// The stored setpoint that stands for full power. Setpoints are fractions of
/// full power in millionths.
pub const FULL_POWER: u32 = 1_000_000;

/// A setpoint brought into the range from no power to full power.
pub open spec fn clamp_setpoint(millionths: int) -> int {
    if millionths < 0 {
        0
    } else if millionths > FULL_POWER {
        FULL_POWER as int
    } else {
        millionths
    }
}

/// Both fields of the control state as they stood at one instant.
#[derive(Clone, Copy, Debug, PartialEq, Eq, Structural)]
pub struct Snapshot {
    /// Desired fraction of full power, in millionths.
    pub setpoint: u32,
    /// Latest RMS load current, in microamperes.
    pub current_rms: u32,
}

/// The record through which the sampling task, the actuator task and the
/// control interface communicate.
///
/// The fields are private: the setpoint can only be written through
/// [`ControlState::set_setpoint`], which clamps, so no reader ever sees a
/// setpoint above [`FULL_POWER`]. Every operation is a copy of at most two
/// words and cannot fail, so a lock held around one is held for constant time.
pub struct ControlState {
    setpoint: u32,
    current_rms: u32,
}

impl View for ControlState {
    type V = Snapshot;

    closed spec fn view(&self) -> Snapshot {
        Snapshot { setpoint: self.setpoint, current_rms: self.current_rms }
    }
}

impl ControlState {
    #[verifier::type_invariant]
    spec fn setpoint_in_range(self) -> bool {
        self.setpoint <= FULL_POWER
    }

    /// The state at startup: no power requested, no current measured.
    pub fn new() -> (state: ControlState)
        ensures
            state@ == (Snapshot { setpoint: 0, current_rms: 0 }),
    {
        ControlState { setpoint: 0, current_rms: 0 }
    }

    /// Both fields, taken together.
    pub fn read(&self) -> (snapshot: Snapshot)
        ensures
            snapshot == self@,
            snapshot.setpoint <= FULL_POWER,
    {
        proof {
            use_type_invariant(self);
        }
        Snapshot { setpoint: self.setpoint, current_rms: self.current_rms }
    }

    /// Stores `millionths` clamped to the range from no power to full power,
    /// and leaves the current estimate as it is.
    pub fn set_setpoint(&mut self, millionths: i64)
        ensures
            final(self)@.setpoint == clamp_setpoint(millionths as int),
            final(self)@.current_rms == old(self)@.current_rms,
    {
        if millionths < 0 {
            self.setpoint = 0;
        } else if millionths > FULL_POWER as i64 {
            self.setpoint = FULL_POWER;
        } else {
            self.setpoint = millionths as u32;
        }
    }

    /// Stores `microamps` as the current estimate, and leaves the setpoint as
    /// it is.
    pub fn set_current_rms(&mut self, microamps: u32)
        ensures
            final(self)@.current_rms == microamps,
            final(self)@.setpoint == old(self)@.setpoint,
    {
        proof {
            use_type_invariant(&*self);
        }
        self.current_rms = microamps;
    }
}

} // verus!
