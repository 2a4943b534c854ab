//! Fixed-point geometry and the kinematics controller.
use niart::physics::{
    isqrt, integrate, plan_movement, station_movement, Position, SpeedLimit, TrainEngine, Vector,
};

fn engine(vx: i64, vy: i64, vmax: i64, amax: i64) -> TrainEngine {
    TrainEngine {
        velocity: Vector { x: vx, y: vy },
        acceleration: Vector { x: 0, y: 0 },
        vmax,
        amax,
    }
}

#[test]
fn isqrt_small_values() {
    assert_eq!(isqrt(0), 0);
    assert_eq!(isqrt(1), 1);
    assert_eq!(isqrt(3), 1);
    assert_eq!(isqrt(4), 2);
    assert_eq!(isqrt(99), 9);
    assert_eq!(isqrt(100), 10);
}

#[test]
fn isqrt_large_values() {
    assert_eq!(isqrt(200_000_000), 14142);
    assert_eq!(isqrt(u64::MAX as u128), 4294967295);
    assert_eq!(isqrt((1u128 << 126) - 1), (1u64 << 63) - 1);
}

#[test]
fn vector_length_is_euclidean() {
    let v = Vector { x: 3000, y: 4000 };
    assert_eq!(v.length(), 5000);
    let w = Vector { x: -3000, y: 4000 };
    assert_eq!(w.length(), 5000);
    assert_eq!(Vector { x: 0, y: 0 }.length(), 0);
    // 1 unit diagonal: sqrt(2) rounded down.
    assert_eq!(Vector { x: 1000, y: 1000 }.length(), 1414);
}

#[test]
fn scale_to_length_rescales() {
    let v = Vector { x: 3000, y: 4000 };
    let r = v.scale_to_length(10000);
    assert_eq!((r.x, r.y), (6000, 8000));
    let b = v.scale_to_length(-5000);
    assert_eq!((b.x, b.y), (-3000, -4000));
    let z = Vector { x: 0, y: 0 }.scale_to_length(7000);
    assert_eq!((z.x, z.y), (0, 0));
}

#[test]
fn distance_between_positions() {
    let a = Position::new(10000, 15000);
    let b = Position::new(590000, 130000);
    // sqrt(580^2 + 115^2) = sqrt(349625) ~ 591.29 units.
    assert_eq!(a.distance_length_to(&b), 591290);
    assert_eq!(b.distance_length_to(&a), 591290);
    let d = b.distance_to(&a);
    assert_eq!((d.x, d.y), (580000, 115000));
}

/// Braking law: v_current=10, v_upcoming=0, amax=5, safety margin 12 gives a
/// braking distance of 10^2/5 + 12 = 32 units; a train 31 units from a Halt
/// signal brakes at -amax.
#[test]
fn brakes_inside_braking_distance() {
    let e = engine(10000, 0, 30000, 5000);
    let (vel, acc) = plan_movement(
        Position::new(0, 0),
        Position::new(31000, 0),
        &e,
        true,
        None,
        None,
    );
    assert_eq!((vel.x, vel.y), (10000, 0));
    assert_eq!((acc.x, acc.y), (-5000, 0));
}

/// At 33 units, outside the braking distance of 32, the same train does not
/// brake; with a Halt signal ahead it cannot accelerate either, so it coasts.
#[test]
fn coasts_outside_braking_distance() {
    let e = engine(10000, 0, 30000, 5000);
    let (vel, acc) = plan_movement(
        Position::new(0, 0),
        Position::new(33000, 0),
        &e,
        true,
        None,
        None,
    );
    assert_eq!((vel.x, vel.y), (10000, 0));
    assert_eq!((acc.x, acc.y), (0, 0));
}

/// With a clear road and speed below every limit, the train accelerates
/// toward the next hop at +amax.
#[test]
fn accelerates_when_below_limits() {
    let e = engine(10000, 0, 30000, 5000);
    let (vel, acc) = plan_movement(
        Position::new(0, 0),
        Position::new(500000, 0),
        &e,
        false,
        None,
        None,
    );
    assert_eq!((vel.x, vel.y), (10000, 0));
    assert_eq!((acc.x, acc.y), (5000, 0));
}

/// Over the current speed limit, the train brakes before anything else.
#[test]
fn brakes_over_current_limit() {
    let e = engine(20000, 0, 30000, 5000);
    let (_, acc) = plan_movement(
        Position::new(0, 0),
        Position::new(500000, 0),
        &e,
        false,
        Some(SpeedLimit { vmax: 15000 }),
        None,
    );
    assert_eq!((acc.x, acc.y), (-5000, 0));
}

/// The velocity is re-aimed at the next hop each controller step.
#[test]
fn velocity_reaimed_at_next_hop() {
    let e = engine(0, 10000, 30000, 5000);
    let (vel, _) = plan_movement(
        Position::new(0, 0),
        Position::new(400000, 0),
        &e,
        false,
        None,
        None,
    );
    assert_eq!((vel.x, vel.y), (10000, 0));
}

#[test]
fn station_maneuvering_snaps_and_creeps() {
    // Inside the station epsilon of 0.2 units the train stops dead.
    let (vel, acc) = station_movement(Position::new(100, 0), Position::new(0, 0));
    assert_eq!((vel.x, vel.y), (0, 0));
    assert_eq!((acc.x, acc.y), (0, 0));
    // Outside it, the velocity is the displacement itself.
    let (vel, acc) = station_movement(Position::new(1000, 500), Position::new(0, 0));
    assert_eq!((vel.x, vel.y), (-1000, -500));
    assert_eq!((acc.x, acc.y), (0, 0));
}

/// Symplectic Euler: the velocity absorbs the acceleration first, then the
/// position absorbs the new velocity.
#[test]
fn integration_is_symplectic() {
    let e = TrainEngine {
        velocity: Vector { x: 1000, y: 0 },
        acceleration: Vector { x: 2000, y: 0 },
        vmax: 30000,
        amax: 5000,
    };
    // dt of 500 ms: v' = 1000 + 2000/2 = 2000; x' = 0 + 2000/2 = 1000.
    let (pos, vel) = integrate(Position::new(0, 0), &e, 500);
    assert_eq!((vel.x, vel.y), (2000, 0));
    assert_eq!((pos.x, pos.y), (1000, 0));
    // A zero dt changes nothing.
    let (pos, vel) = integrate(Position::new(7, 8), &e, 0);
    assert_eq!((pos.x, pos.y), (7, 8));
    assert_eq!((vel.x, vel.y), (1000, 0));
}
