//! The route planner: determinism, the signal-avoiding bias, and failure.
use niart::physics::Position;
use niart::routing::plan_route;
use niart::signals::JunctionSignal;
use niart::world::{populate, World};

/// A small fork: origin 0 splits at 1 into a signal-free branch through 2
/// and a signal-bearing branch through 3; both reach terminal 4.
fn forked_world() -> World {
    let mut w = World::new();
    let origin = w.add_junction(Position::new(0, 0), true, None);
    let split = w.add_junction(Position::new(10000, 0), false, None);
    let clear = w.add_junction(Position::new(20000, 10000), false, None);
    let guarded = w.add_junction(Position::new(20000, -10000), false, Some(JunctionSignal::new()));
    let dest = w.add_junction(Position::new(30000, 0), true, None);
    w.connect(origin, split);
    // The guarded branch is listed first: only the two-pass bias makes the
    // planner prefer the clear one.
    w.connect(split, guarded);
    w.connect(split, clear);
    w.connect(guarded, dest);
    w.connect(clear, dest);
    w
}

#[test]
fn prefers_signal_free_path() {
    let w = forked_world();
    let route = plan_route(&w.junctions, 0, 4).expect("a route exists");
    assert_eq!(route.hops, vec![1, 2, 4]);
    assert_eq!(route.dest, 4);
}

#[test]
fn takes_guarded_path_when_it_is_the_only_one() {
    let mut w = World::new();
    let origin = w.add_junction(Position::new(0, 0), true, None);
    let guarded = w.add_junction(Position::new(10000, 0), false, Some(JunctionSignal::new()));
    let dest = w.add_junction(Position::new(20000, 0), true, None);
    w.connect(origin, guarded);
    w.connect(guarded, dest);
    let route = plan_route(&w.junctions, origin, dest).expect("a route exists");
    assert_eq!(route.hops, vec![guarded, dest]);
}

/// Determinism: planning the same trip twice on an unmodified graph returns
/// identical hop sequences.
#[test]
fn planning_is_deterministic() {
    let mut w = World::new();
    populate(&mut w);
    let first = plan_route(&w.junctions, 0, 1).expect("mine to plant");
    let second = plan_route(&w.junctions, 0, 1).expect("mine to plant");
    assert_eq!(first.hops, second.hops);
    assert_eq!(first.dest, second.dest);
    assert_eq!(*first.hops.last().unwrap(), 1);
}

#[test]
fn unreachable_destination_is_no_route_found() {
    let mut w = World::new();
    populate(&mut w);
    // Junction 3 is an unconnected power plant.
    assert!(plan_route(&w.junctions, 3, 0).is_err());
    assert!(plan_route(&w.junctions, 0, 3).is_err());
}

#[test]
fn no_route_on_empty_neighborhood() {
    let mut w = World::new();
    let a = w.add_junction(Position::new(0, 0), true, None);
    let b = w.add_junction(Position::new(10000, 0), true, None);
    assert!(plan_route(&w.junctions, a, b).is_err());
}

#[test]
fn route_follows_edges_and_ends_at_destination() {
    let mut w = World::new();
    populate(&mut w);
    let route = plan_route(&w.junctions, 0, 2).expect("mine to top plant");
    assert_eq!(*route.hops.last().unwrap(), 2);
    let mut at = 0usize;
    for &hop in &route.hops {
        assert!(w.neighbors(at).contains(&hop), "no edge {at} -> {hop}");
        at = hop;
    }
}

#[test]
fn cycles_do_not_trap_the_planner() {
    let mut w = World::new();
    let a = w.add_junction(Position::new(0, 0), true, None);
    let b = w.add_junction(Position::new(10000, 0), false, None);
    let c = w.add_junction(Position::new(20000, 0), false, None);
    let d = w.add_junction(Position::new(30000, 0), true, None);
    w.connect(a, b);
    w.connect(b, c);
    w.connect(c, a);
    // The destination hangs off the cycle.
    w.connect(c, d);
    let route = plan_route(&w.junctions, a, d).expect("a route exists");
    assert_eq!(route.hops, vec![b, c, d]);
}
