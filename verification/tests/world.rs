//! Whole-world scenarios: the tick pipeline, the reservation protocol, and
//! the error paths.
use niart::physics::Position;
use niart::routing::TrainRoute;
use niart::signals::{JunctionSignal, SignalState};
use niart::world::{populate, ProtocolError, World};

/// A terminal, three signal-guarded waypoints on a straight line, and a
/// destination terminal: m - a(S) - b(S) - c(S) - p.
fn guarded_line() -> (World, usize, usize, usize, usize, usize) {
    let mut w = World::new();
    let m = w.add_junction(Position::new(0, 0), true, None);
    let a = w.add_junction(Position::new(50000, 0), false, Some(JunctionSignal::new()));
    let b = w.add_junction(Position::new(200000, 0), false, Some(JunctionSignal::new()));
    let c = w.add_junction(Position::new(350000, 0), false, Some(JunctionSignal::new()));
    let p = w.add_junction(Position::new(400000, 0), true, None);
    w.connect(m, a);
    w.connect(a, b);
    w.connect(b, c);
    w.connect(c, p);
    (w, m, a, b, c, p)
}

/// The two-ahead guarantee, checked directly: every signal showing Go is
/// reserved for a train whose route's first two signal-bearing hops are this
/// signal and a second one also reserved for that train.
fn two_ahead_holds(w: &World) -> bool {
    (0..w.junction_count()).all(|j| {
        let sig = match &w.junctions[j].signal {
            Some(s) => s,
            None => return true,
        };
        if sig.signal_state != SignalState::Go {
            return true;
        }
        let t = match sig.reserved_for {
            Some(t) => t,
            None => return false,
        };
        let route = match w.trains[t].as_ref().and_then(|tr| tr.route.as_ref()) {
            Some(r) => r,
            None => return false,
        };
        let sigs: Vec<usize> = route
            .hops
            .iter()
            .copied()
            .filter(|&h| w.junctions[h].signal.is_some())
            .collect();
        sigs.len() >= 2
            && sigs[0] == j
            && w.junctions[sigs[1]].signal.as_ref().unwrap().reserved_for == Some(t)
    })
}

fn exclusivity_holds(w: &World) -> bool {
    w.junctions.iter().all(|j| match &j.signal {
        Some(s) => match (s.reserved_for, s.occupied_by) {
            (Some(r), Some(o)) => r == o,
            _ => true,
        },
        None => true,
    })
}

#[test]
fn populate_builds_the_sample_network() {
    let mut w = World::new();
    populate(&mut w);
    assert_eq!(w.junction_count(), 24);
    assert_eq!(w.train_count(), 0);
    // The five terminals come first.
    for j in 0..5 {
        assert!(w.is_terminal(j));
        assert!(w.signal_state(j).is_none());
    }
    // The signal-bearing waypoints of the double-track main line.
    for j in [9, 10, 11, 12, 13, 14, 16, 19, 20] {
        assert!(!w.is_terminal(j));
        assert_eq!(w.signal_state(j), Some(SignalState::Halt));
    }
    // Plain waypoints carry none.
    for j in [5, 6, 7, 8, 15, 17, 18, 21, 22, 23] {
        assert!(w.signal_state(j).is_none());
    }
    // Edges are symmetric: the mine's forecourt junction knows the mine.
    assert!(w.neighbors(0).contains(&5));
    assert!(w.neighbors(5).contains(&0));
    assert_eq!(w.junction_position(0), Position::new(60000, 65000));
    assert_eq!(w.junction_position(2), Position::new(600000, 130000));
}

#[test]
fn spawned_train_waits_in_station() {
    let (mut w, m, _, _, _, p) = guarded_line();
    let t = w.spawn_train(m, p, 30000, 5000);
    assert_eq!(t, 0);
    let train = w.trains[t].as_ref().unwrap();
    assert_eq!(train.in_station, Some(m));
    assert_eq!(train.destination, Some(p));
    assert_eq!((train.engine.velocity.x, train.engine.velocity.y), (0, 0));
    assert_eq!(w.train_position(t), Some(Position::new(0, 0)));
}

/// Doomed-train cleanup: when no route exists, the train is removed from the
/// simulation by the commit phase of the same tick, not rescheduled.
#[test]
fn doomed_train_is_removed() {
    let mut w = World::new();
    populate(&mut w);
    // Junction 3 is an unconnected power plant; no route leaves it.
    let t = w.spawn_train(3, 0, 30000, 5000);
    assert!(w.trains[t].is_some());
    w.tick(50);
    assert!(w.trains[t].is_none());
    assert!(w.doomed.is_empty());
    assert!(w.errors.is_empty());
}

/// First tick of a routed train: the two signals ahead are reserved in route
/// order, the first shows Go (the staged limit from the 150-unit gap is
/// above the slow threshold), the second stays Halt.
#[test]
fn two_ahead_reservation_grants_go() {
    let (mut w, m, a, b, c, p) = guarded_line();
    let t = w.spawn_train(m, p, 30000, 5000);
    w.tick(50);
    let train = w.trains[t].as_ref().unwrap();
    let route = train.route.as_ref().unwrap();
    assert_eq!(route.hops, vec![a, b, c, p]);
    assert_eq!(route.dest, p);
    let sig_a = w.junctions[a].signal.as_ref().unwrap();
    let sig_b = w.junctions[b].signal.as_ref().unwrap();
    assert_eq!(sig_a.reserved_for, Some(t));
    assert_eq!(sig_b.reserved_for, Some(t));
    assert_eq!(sig_a.signal_state, SignalState::Go);
    assert_eq!(sig_b.signal_state, SignalState::Halt);
    // sqrt(150 * 4) ~ 24.494: staged, but not below the slow threshold.
    assert_eq!(train.limit_upcoming.map(|l| l.vmax), Some(24494));
    assert!(exclusivity_holds(&w));
    assert!(two_ahead_holds(&w));
}

/// A staged limit below the slow threshold makes the first signal show Slow
/// instead of Go: here the two signals are 50 units apart (limit ~ 14.14).
#[test]
fn close_signals_show_slow() {
    let mut w = World::new();
    let m = w.add_junction(Position::new(0, 0), true, None);
    let a = w.add_junction(Position::new(50000, 0), false, Some(JunctionSignal::new()));
    let b = w.add_junction(Position::new(100000, 0), false, Some(JunctionSignal::new()));
    let p = w.add_junction(Position::new(150000, 0), true, None);
    w.connect(m, a);
    w.connect(a, b);
    w.connect(b, p);
    let t = w.spawn_train(m, p, 30000, 5000);
    w.tick(50);
    assert_eq!(w.signal_state(a), Some(SignalState::Slow));
    let train = w.trains[t].as_ref().unwrap();
    assert_eq!(train.limit_upcoming.map(|l| l.vmax), Some(14142));
}

/// The full life of the first signal on the line as one train passes it:
/// Dark while idle, Go once both blocks ahead are reserved, Halt while the
/// train physically occupies its block, Dark again after the hand-off to the
/// next block.
#[test]
fn signal_cycles_dark_go_halt_dark() {
    let (mut w, m, a, _, _, p) = guarded_line();
    // One tick with no trains: an unreserved, unoccupied signal goes Dark.
    w.tick(50);
    assert_eq!(w.signal_state(a), Some(SignalState::Dark));
    let t = w.spawn_train(m, p, 30000, 5000);
    let mut observed: Vec<SignalState> = vec![w.signal_state(a).unwrap()];
    for _ in 0..400 {
        w.tick(50);
        assert!(exclusivity_holds(&w));
        assert!(two_ahead_holds(&w));
        let s = w.signal_state(a).unwrap();
        if *observed.last().unwrap() != s {
            observed.push(s);
        }
    }
    assert_eq!(
        observed,
        vec![SignalState::Dark, SignalState::Go, SignalState::Halt, SignalState::Dark]
    );
    // The train meanwhile holds the block after the second signal.
    assert!(w.trains[t].is_some());
    assert!(w.errors.is_empty());
}

/// End-to-end: a coal-mine terminal at (10,15) connected via two waypoints
/// to a power-plant terminal at (590,130). A spawned train gets a non-empty
/// route ending at the plant and reaches it within a bounded number of
/// ticks; the route is signal-free, so no signal is involved at all.
#[test]
fn train_crosses_the_map() {
    let mut w = World::new();
    let mine = w.add_junction(Position::new(10000, 15000), true, None);
    let w1 = w.add_junction(Position::new(200000, 50000), false, None);
    let w2 = w.add_junction(Position::new(400000, 90000), false, None);
    let plant = w.add_junction(Position::new(590000, 130000), true, None);
    w.connect(mine, w1);
    w.connect(w1, w2);
    w.connect(w2, plant);
    let t = w.spawn_train(mine, plant, 30000, 5000);
    w.tick(50);
    {
        let train = w.trains[t].as_ref().unwrap();
        let route = train.route.as_ref().unwrap();
        assert!(!route.hops.is_empty());
        assert_eq!(*route.hops.last().unwrap(), plant);
        assert_eq!(route.hops, vec![w1, w2, plant]);
    }
    for _ in 0..1200 {
        w.tick(50);
    }
    let train = w.trains[t].as_ref().unwrap();
    assert_eq!(train.in_station, Some(plant));
    assert!(train.route.is_none());
    let d = Position::new(590000, 130000).distance_length_to(&train.position);
    assert!(d <= 2000, "train ended {d} thousandths away");
    assert!(w.errors.is_empty());
}

/// A hand-off onto a signal that was never reserved is reported, not
/// crashed on: the stale (missing) reservation is consumed all the same, the
/// block is taken, and the violation logged.
#[test]
fn unreserved_handoff_is_reported() {
    let (mut w, _, a, _, _, p) = guarded_line();
    let t = w.spawn_train(p, p, 30000, 5000);
    {
        let train = w.trains[t].as_mut().unwrap();
        train.in_station = None;
        train.destination = None;
        train.position = Position::new(50000, 0);
        train.route = Some(TrainRoute::new(vec![a, p], p));
    }
    w.tick(50);
    assert_eq!(w.errors, vec![ProtocolError::ReservationNotHeld { train: t, junction: a }]);
    let sig_a = w.junctions[a].signal.as_ref().unwrap();
    assert_eq!(sig_a.occupied_by, Some(t));
    assert!(sig_a.reserved_for.is_none());
    assert_eq!(sig_a.signal_state, SignalState::Halt);
}

/// A hand-off that finds another train's reservation on the entered block
/// clears that stale reservation before occupying, so the signal never
/// records two distinct trains at once.
#[test]
fn foreign_reservation_is_cleared_on_entry() {
    let (mut w, m, a, _, _, p) = guarded_line();
    let arriving = w.spawn_train(p, p, 30000, 5000);
    let other = w.spawn_train(m, m, 30000, 5000);
    {
        let train = w.trains[arriving].as_mut().unwrap();
        train.in_station = None;
        train.destination = None;
        train.position = Position::new(50000, 0);
        train.route = Some(TrainRoute::new(vec![a, p], p));
    }
    {
        let train = w.trains[other].as_mut().unwrap();
        train.in_station = None;
        train.destination = None;
    }
    {
        let sig = w.junctions[a].signal.as_mut().unwrap();
        sig.reserved_for = Some(other);
    }
    w.tick(50);
    assert_eq!(
        w.errors,
        vec![ProtocolError::ReservationNotHeld { train: arriving, junction: a }]
    );
    let sig_a = w.junctions[a].signal.as_ref().unwrap();
    assert_eq!(sig_a.occupied_by, Some(arriving));
    assert!(sig_a.reserved_for.is_none());
    assert!(exclusivity_holds(&w));
}

/// The dispatcher never reserves a block that a different train still
/// occupies: the approaching train simply gets no reservation this tick.
#[test]
fn occupied_block_is_not_reserved() {
    let (mut w, m, a, _, _, p) = guarded_line();
    let approaching = w.spawn_train(m, p, 30000, 5000);
    let standing = w.spawn_train(p, p, 30000, 5000);
    {
        // A train physically standing in the first block, not in a station.
        let train = w.trains[standing].as_mut().unwrap();
        train.in_station = None;
        train.destination = None;
        train.position = Position::new(50000, 0);
        train.blocking_signal = Some(a);
    }
    {
        let sig = w.junctions[a].signal.as_mut().unwrap();
        sig.occupied_by = Some(standing);
    }
    w.tick(50);
    let sig_a = w.junctions[a].signal.as_ref().unwrap();
    assert!(sig_a.reserved_for.is_none());
    assert_eq!(sig_a.occupied_by, Some(standing));
    assert_eq!(sig_a.signal_state, SignalState::Halt);
    assert!(w.trains[approaching].as_ref().unwrap().route.is_some());
    assert!(exclusivity_holds(&w));
    assert!(w.errors.is_empty());
}

/// A hand-off into a block that another train still occupies is refused and
/// reported; the occupant keeps the block.
#[test]
fn double_occupancy_is_refused() {
    let (mut w, m, a, _, _, p) = guarded_line();
    let intruder = w.spawn_train(p, p, 30000, 5000);
    let occupant = w.spawn_train(m, m, 30000, 5000);
    {
        let train = w.trains[intruder].as_mut().unwrap();
        train.in_station = None;
        train.destination = None;
        train.position = Position::new(50000, 0);
        train.route = Some(TrainRoute::new(vec![a, p], p));
    }
    {
        let sig = w.junctions[a].signal.as_mut().unwrap();
        sig.reserved_for = Some(intruder);
        sig.occupied_by = Some(occupant);
    }
    {
        // The occupant stands in the block, not in any station, so the
        // cleaner has no stale hold to sweep.
        let train = w.trains[occupant].as_mut().unwrap();
        train.in_station = None;
        train.destination = None;
    }
    w.tick(50);
    assert_eq!(
        w.errors,
        vec![ProtocolError::BlockAlreadyOccupied { train: intruder, junction: a }]
    );
    let sig_a = w.junctions[a].signal.as_ref().unwrap();
    assert_eq!(sig_a.occupied_by, Some(occupant));
    assert!(exclusivity_holds(&w));
}

/// A stale hand-off record pointing at a block the train does not hold is a
/// reported no-op for the cleaner.
#[test]
fn stale_block_record_is_reported() {
    let (mut w, m, a, _, _, _) = guarded_line();
    let t = w.spawn_train(m, m, 30000, 5000);
    {
        let train = w.trains[t].as_mut().unwrap();
        train.destination = None;
        train.blocking_signal = Some(a);
    }
    w.tick(50);
    assert_eq!(w.errors, vec![ProtocolError::BlockNotHeld { train: t, junction: a }]);
    assert!(w.trains[t].as_ref().unwrap().blocking_signal.is_none());
}

/// A train that arrives in a station gives up its block and reservation on
/// the same tick (the cleanup phase).
#[test]
fn cleaner_releases_stale_holds() {
    let (mut w, m, a, b, c, _) = guarded_line();
    let t = w.spawn_train(m, m, 30000, 5000);
    {
        let train = w.trains[t].as_mut().unwrap();
        train.destination = None;
        train.blocking_signal = Some(a);
    }
    {
        let sig = w.junctions[a].signal.as_mut().unwrap();
        sig.occupied_by = Some(t);
    }
    {
        let sig = w.junctions[b].signal.as_mut().unwrap();
        sig.reserved_for = Some(t);
    }
    {
        // A stale occupancy whose holder lost its hand-off record: the
        // cleaner sweeps it by scanning the signals themselves.
        let sig = w.junctions[c].signal.as_mut().unwrap();
        sig.occupied_by = Some(t);
    }
    w.tick(50);
    assert!(w.junctions[a].signal.as_ref().unwrap().occupied_by.is_none());
    assert!(w.junctions[b].signal.as_ref().unwrap().reserved_for.is_none());
    assert!(w.junctions[c].signal.as_ref().unwrap().occupied_by.is_none());
    assert!(w.trains[t].as_ref().unwrap().blocking_signal.is_none());
    assert!(w.errors.is_empty());
}

#[test]
fn rail_segments_snap_or_create_junctions() {
    let mut w = World::new();
    let a = w.add_junction(Position::new(0, 0), false, None);
    let b = w.add_junction(Position::new(100000, 0), false, None);
    // One endpoint snaps onto `a`; the other is a fresh waypoint.
    w.add_rail_segment(Position::new(1000, 1000), Position::new(50000, 50000));
    assert_eq!(w.junction_count(), 3);
    assert_eq!(w.neighbors(a), vec![2]);
    assert_eq!(w.neighbors(2), vec![a]);
    // Both endpoints reach existing junctions: only an edge is added.
    w.add_rail_segment(Position::new(99000, 0), Position::new(49000, 49000));
    assert_eq!(w.junction_count(), 3);
    assert_eq!(w.neighbors(b), vec![2]);
    // A degenerate segment whose endpoints resolve to the same junction adds
    // nothing.
    w.add_rail_segment(Position::new(500, 0), Position::new(0, 500));
    assert_eq!(w.junction_count(), 3);
    assert_eq!(w.neighbors(a), vec![2]);
}
