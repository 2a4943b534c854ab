//! Signals: the four-state display attached to some junctions, the
//! reservation/occupancy bookkeeping, and the derived speed limits.
use vstd::prelude::*;
use crate::physics::{isqrt, isqrt_spec, SpeedLimit, CAP_RATE};

verus! {

/// What a signal shows. `Dark` means it has nothing to say; a train treats it
/// like `Halt` when braking.
#[derive(Clone, Copy, PartialEq, Eq, Structural, Debug)]
pub enum SignalState {
    Dark,
    Halt,
    Slow,
    Go,
}

/// A signal guarding the block behind one junction. `reserved_for` is an
/// advance claim; `occupied_by` records the train physically in the block.
/// Both are train indices.
#[derive(Clone, Copy, Debug)]
pub struct JunctionSignal {
    pub signal_state: SignalState,
    pub reserved_for: Option<usize>,
    pub occupied_by: Option<usize>,
}

impl JunctionSignal {
    pub fn new() -> (r: Self)
        ensures
            r.signal_state == SignalState::Halt,
            r.reserved_for is None,
            r.occupied_by is None,
    {
        Self { signal_state: SignalState::Halt, reserved_for: None, occupied_by: None }
    }

    /// Whether a train approaching this signal must treat it as red.
    pub open spec fn is_halt_spec(&self) -> bool {
        self.signal_state == SignalState::Halt || self.signal_state == SignalState::Dark
    }

    pub fn is_halt(&self) -> (r: bool)
        ensures
            r == self.is_halt_spec(),
    {
        match self.signal_state {
            SignalState::Halt => true,
            SignalState::Dark => true,
            _ => false,
        }
    }
}

/// Cruise speed assumed of every train when deriving limits, in thousandths.
pub const ASSUMED_VMAX: i64 = 30000;

/// A staged limit below this makes the signal show Slow instead of Go.
pub const VMAX_FOR_SLOW: i64 = 20000;

/// Deceleration assumed of every train when deriving limits, in thousandths.
pub const ASSUMED_DECEL: i64 = 4000;

/// Distance deducted from the gap between two signals before deriving the
/// limit from it.
pub const SIGHT_MARGIN: i64 = 0;

/// Top speed reachable when the next two signals are `gap` apart: the speed
/// from which the assumed deceleration stops a train within the clear part of
/// the gap (`v = sqrt(s * a)`, in fixed point).
pub open spec fn derived_limit_spec(gap: int) -> int {
    let clear = if gap - SIGHT_MARGIN > 0 {
        gap - SIGHT_MARGIN
    } else {
        0
    };
    isqrt_spec((clear * ASSUMED_DECEL) as nat) as int
}

/// The limit staged for a train granted both reservations: imposed only when
/// it is strictly below the assumed cruise speed.
pub open spec fn staged_limit_spec(gap: int) -> Option<SpeedLimit> {
    if derived_limit_spec(gap) < ASSUMED_VMAX as int {
        Some(SpeedLimit { vmax: derived_limit_spec(gap) as i64 })
    } else {
        None
    }
}

/// Derive the speed limit implied by two consecutive signals `gap` apart.
pub fn derive_speed_limit(gap: u64) -> (r: Option<SpeedLimit>)
    ensures
        r == staged_limit_spec(gap as int),
        r matches Some(l) ==> 0 <= l.vmax < ASSUMED_VMAX <= CAP_RATE,
{
    let clear: u64 = if gap > SIGHT_MARGIN as u64 {
        gap - SIGHT_MARGIN as u64
    } else {
        0
    };
    let limit = isqrt((clear as u128) * (ASSUMED_DECEL as u128));
    if limit < ASSUMED_VMAX as u64 {
        Some(SpeedLimit { vmax: limit as i64 })
    } else {
        None
    }
}

} // verus!
