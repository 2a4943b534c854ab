//! Signal state basics and the derived speed limit.
use niart::physics::SpeedLimit;
use niart::signals::{derive_speed_limit, JunctionSignal, SignalState};

#[test]
fn fresh_signal_shows_halt_and_holds_nothing() {
    let s = JunctionSignal::new();
    assert_eq!(s.signal_state, SignalState::Halt);
    assert!(s.reserved_for.is_none());
    assert!(s.occupied_by.is_none());
}

#[test]
fn halt_and_dark_both_brake() {
    let mut s = JunctionSignal::new();
    assert!(s.is_halt());
    s.signal_state = SignalState::Dark;
    assert!(s.is_halt());
    s.signal_state = SignalState::Slow;
    assert!(!s.is_halt());
    s.signal_state = SignalState::Go;
    assert!(!s.is_halt());
}

/// Speed-limit derivation: two signals 50 units apart with an assumed
/// deceleration of 4 give sqrt(50 * 4) ~ 14.142 units per second, well below
/// the assumed cruise speed of 30.
#[test]
fn limit_from_fifty_units() {
    assert_eq!(derive_speed_limit(50000), Some(SpeedLimit { vmax: 14142 }));
}

/// At and above the gap whose derived limit reaches the assumed cruise
/// speed, no limit is imposed at all.
#[test]
fn no_limit_at_cruise_speed() {
    // sqrt(225 * 4) = 30 exactly: not strictly below the cruise speed.
    assert_eq!(derive_speed_limit(225_000), None);
    assert_eq!(derive_speed_limit(1_000_000), None);
    // One thousandth less still yields a limit.
    assert_eq!(derive_speed_limit(224_999), Some(SpeedLimit { vmax: 29999 }));
}

#[test]
fn zero_gap_pins_the_train_down() {
    assert_eq!(derive_speed_limit(0), Some(SpeedLimit { vmax: 0 }));
}
