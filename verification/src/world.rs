//! The simulation world: junctions, trains, and the fixed per-tick pipeline
//! (route planning, navigation, signal dispatch, kinematics, cleanup,
//! commit).
use vstd::prelude::*;
use crate::physics::{engine_ok, rate_ok, Position, SpeedLimit, TrainEngine, Vector};
use crate::routing::{
    graph_model, graph_wf, plan_result_spec, plan_route, Junction, JunctionModel, RouteModel,
    TrainRoute,
};
use crate::signals::JunctionSignal;

verus! {

/// Distance below which a train counts as having arrived at its next hop.
pub const ARRIVAL_RADIUS: i64 = 2000;

/// How near to an endpoint of a reported rail segment an existing junction
/// must be for the segment to snap onto it.
pub const SNAP_RADIUS: i64 = 4000;

/// One train. `route` is present while it is en route; `in_station` while it
/// sits idle at a junction; `destination` while it waits to be routed;
/// `blocking_signal` names the junction whose block it physically occupies.
pub struct Train {
    pub position: Position,
    pub engine: TrainEngine,
    pub route: Option<TrainRoute>,
    pub in_station: Option<usize>,
    pub destination: Option<usize>,
    pub blocking_signal: Option<usize>,
    pub limit_current: Option<SpeedLimit>,
    pub limit_upcoming: Option<SpeedLimit>,
}

/// Spec-level image of a [`Train`].
#[verifier::ext_equal]
pub ghost struct TrainModel {
    pub position: Position,
    pub engine: TrainEngine,
    pub route: Option<RouteModel>,
    pub in_station: Option<usize>,
    pub destination: Option<usize>,
    pub blocking_signal: Option<usize>,
    pub limit_current: Option<SpeedLimit>,
    pub limit_upcoming: Option<SpeedLimit>,
}

impl View for Train {
    type V = TrainModel;

    open spec fn view(&self) -> TrainModel {
        TrainModel {
            position: self.position,
            engine: self.engine,
            route: match self.route {
                Some(r) => Some(r@),
                None => None,
            },
            in_station: self.in_station,
            destination: self.destination,
            blocking_signal: self.blocking_signal,
            limit_current: self.limit_current,
            limit_upcoming: self.limit_upcoming,
        }
    }
}

/// A reservation-protocol violation, reported instead of crashing: the
/// offending hand-off action is skipped and the rest of the tick goes on.
#[derive(Clone, Copy, PartialEq, Eq, Structural, Debug)]
pub enum ProtocolError {
    /// A hand-off tried to release a block the train does not actually hold.
    BlockNotHeld { train: usize, junction: usize },
    /// A hand-off found its own reservation missing or held by another train.
    ReservationNotHeld { train: usize, junction: usize },
    /// A train arrived at a block that another train still occupies.
    BlockAlreadyOccupied { train: usize, junction: usize },
}

/// The whole simulation state. Trains are slots so that indices stay stable
/// when a doomed train is removed in the commit phase.
pub struct World {
    pub junctions: Vec<Junction>,
    pub trains: Vec<Option<Train>>,
    pub doomed: Vec<usize>,
    pub errors: Vec<ProtocolError>,
}

/// Spec-level image of the [`World`].
#[verifier::ext_equal]
pub ghost struct WorldModel {
    pub junctions: Seq<JunctionModel>,
    pub trains: Seq<Option<TrainModel>>,
    pub doomed: Seq<usize>,
    pub errors: Seq<ProtocolError>,
}

impl View for World {
    type V = WorldModel;

    open spec fn view(&self) -> WorldModel {
        WorldModel {
            junctions: graph_model(self.junctions@),
            trains: self.trains@.map_values(
                |t: Option<Train>|
                    match t {
                        Some(tr) => Some(tr@),
                        None => None,
                    },
            ),
            doomed: self.doomed@,
            errors: self.errors@,
        }
    }
}

/// A route is nonempty, stays inside the graph, and ends at its destination.
pub open spec fn route_wf(w: WorldModel, r: RouteModel) -> bool {
    &&& r.hops.len() >= 1
    &&& forall|i: int| 0 <= i < r.hops.len() ==> (#[trigger] r.hops[i] as int) < w.junctions.len()
    &&& (r.dest as int) < w.junctions.len()
    &&& r.hops[r.hops.len() - 1] == r.dest
}

/// A train's fields stay inside the world and the arithmetic ranges.
pub open spec fn train_wf(w: WorldModel, t: TrainModel) -> bool {
    &&& engine_ok(t.engine)
    &&& (t.route matches Some(r) ==> route_wf(w, r))
    &&& (t.in_station matches Some(j) ==> (j as int) < w.junctions.len())
    &&& (t.destination matches Some(j) ==> (j as int) < w.junctions.len())
    &&& (t.blocking_signal matches Some(j) ==> (j as int) < w.junctions.len() && w.junctions[
        j as int].signal is Some)
    &&& (t.limit_current matches Some(l) ==> rate_ok(l.vmax as int))
    &&& (t.limit_upcoming matches Some(l) ==> rate_ok(l.vmax as int))
}

/// A signal's back-references name train slots of the world.
pub open spec fn junction_refs_wf(w: WorldModel, j: JunctionModel) -> bool {
    j.signal matches Some(s) ==> {
        &&& (s.reserved_for matches Some(t) ==> (t as int) < w.trains.len())
        &&& (s.occupied_by matches Some(t) ==> (t as int) < w.trains.len())
    }
}

/// Well-formedness of the whole world, preserved by every phase.
pub open spec fn wf(w: WorldModel) -> bool {
    &&& graph_wf(w.junctions)
    &&& forall|j: int| 0 <= j < w.junctions.len() ==> junction_refs_wf(w, #[trigger] w.junctions[j])
    &&& forall|i: int|
        0 <= i < w.trains.len() ==> (#[trigger] w.trains[i] matches Some(t) ==> train_wf(w, t))
    &&& forall|k: int| 0 <= k < w.doomed.len() ==> (#[trigger] w.doomed[k] as int) < w.trains.len()
}

impl World {
    pub open spec fn wf(&self) -> bool {
        wf(self@)
    }

    pub fn new() -> (r: Self)
        ensures
            r@.junctions == Seq::<JunctionModel>::empty(),
            r@.trains == Seq::<Option<TrainModel>>::empty(),
            r@.doomed == Seq::<usize>::empty(),
            r@.errors == Seq::<ProtocolError>::empty(),
            r.wf(),
    {
        let r = World { junctions: Vec::new(), trains: Vec::new(), doomed: Vec::new(), errors: Vec::new() };
        proof {
            assert(r@.junctions =~= Seq::<JunctionModel>::empty());
            assert(r@.trains =~= Seq::<Option<TrainModel>>::empty());
        }
        r
    }

    /// Create a junction at `position`; returns its id.
    pub fn add_junction(&mut self, position: Position, is_terminal: bool, signal: Option<
        JunctionSignal,
    >) -> (id: usize)
        requires
            old(self).wf(),
        ensures
            final(self).wf(),
            id == old(self)@.junctions.len(),
            final(self)@.junctions == old(self)@.junctions.push(
                JunctionModel {
                    connections: Seq::empty(),
                    is_terminal: is_terminal,
                    position: position,
                    signal: match signal {
                        Some(s) => Some(
                            JunctionSignal {
                                signal_state: s.signal_state,
                                reserved_for: None,
                                occupied_by: None,
                            },
                        ),
                        None => None,
                    },
                },
            ),
            final(self)@.trains == old(self)@.trains,
            final(self)@.doomed == old(self)@.doomed,
            final(self)@.errors == old(self)@.errors,
    {
        let id = self.junctions.len();
        // A fresh signal holds no reservation and no occupant, whatever the
        // caller built.
        let fresh_signal = match signal {
            Some(s) => Some(
                JunctionSignal { signal_state: s.signal_state, reserved_for: None, occupied_by: None },
            ),
            None => None,
        };
        self.junctions.push(
            Junction { connections: Vec::new(), is_terminal, position, signal: fresh_signal },
        );
        proof {
            assert(self@.junctions =~= old(self)@.junctions.push(self.junctions@[id as int]@));
            assert(self@.trains =~= old(self)@.trains);
            assert(self@.doomed =~= old(self)@.doomed);
            lemma_wf_after_junction_push(old(self)@, self@);
        }
        id
    }

    /// Append a symmetric edge between `a` and `b`.
    pub fn connect(&mut self, a: usize, b: usize)
        requires
            old(self).wf(),
            (a as int) < old(self)@.junctions.len(),
            (b as int) < old(self)@.junctions.len(),
            a != b,
        ensures
            final(self).wf(),
            final(self)@.junctions == old(self)@.junctions.update(
                a as int,
                JunctionModel {
                    connections: old(self)@.junctions[a as int].connections.push(b),
                    ..old(self)@.junctions[a as int]
                },
            ).update(
                b as int,
                JunctionModel {
                    connections: old(self)@.junctions[b as int].connections.push(a),
                    ..old(self)@.junctions[b as int]
                },
            ),
            final(self)@.trains == old(self)@.trains,
            final(self)@.doomed == old(self)@.doomed,
            final(self)@.errors == old(self)@.errors,
    {
        let ghost before = self@;
        self.junctions[a].connections.push(b);
        self.junctions[b].connections.push(a);
        proof {
            assert(self@.junctions =~= before.junctions.update(
                a as int,
                JunctionModel {
                    connections: before.junctions[a as int].connections.push(b),
                    ..before.junctions[a as int]
                },
            ).update(
                b as int,
                JunctionModel {
                    connections: before.junctions[b as int].connections.push(a),
                    ..before.junctions[b as int]
                },
            ));
            assert(self@.trains =~= before.trains);
            lemma_wf_after_connect(before, self@, a, b);
        }
    }

    /// The ordered neighbor list of `j`.
    pub fn neighbors(&self, j: usize) -> (r: Vec<usize>)
        requires
            (j as int) < self@.junctions.len(),
        ensures
            r@ == self@.junctions[j as int].connections,
    {
        let mut r: Vec<usize> = Vec::new();
        let n = self.junctions[j].connections.len();
        let mut k: usize = 0;
        while k < n
            invariant
                k <= n,
                (j as int) < self.junctions@.len(),
                n == self.junctions@[j as int].connections@.len(),
                r@ == self.junctions@[j as int].connections@.take(k as int),
            decreases n - k,
        {
            r.push(self.junctions[j].connections[k]);
            proof {
                assert(r@ =~= self.junctions@[j as int].connections@.take(k + 1));
            }
            k += 1;
        }
        proof {
            assert(self.junctions@[j as int].connections@.take(n as int) =~= self@.junctions[
                j as int].connections);
        }
        r
    }

    /// Whether `j` is a terminal.
    pub fn is_terminal(&self, j: usize) -> (r: bool)
        requires
            (j as int) < self@.junctions.len(),
        ensures
            r == self@.junctions[j as int].is_terminal,
    {
        self.junctions[j].is_terminal
    }

    pub fn junction_count(&self) -> (r: usize)
        ensures
            r == self@.junctions.len(),
    {
        self.junctions.len()
    }

    pub fn train_count(&self) -> (r: usize)
        ensures
            r == self@.trains.len(),
    {
        self.trains.len()
    }
}

/// Pushing a junction with a cleared signal keeps the world well-formed.
proof fn lemma_wf_after_junction_push(before: WorldModel, after: WorldModel)
    requires
        wf(before),
        after.trains == before.trains,
        after.doomed == before.doomed,
        after.junctions.len() == before.junctions.len() + 1,
        forall|j: int| 0 <= j < before.junctions.len() ==> after.junctions[j] == before.junctions[j],
        after.junctions[before.junctions.len() as int].connections == Seq::<usize>::empty(),
        after.junctions[before.junctions.len() as int].signal matches Some(s) ==> s.reserved_for
            is None && s.occupied_by is None,
    ensures
        wf(after),
{
    assert(graph_wf(after.junctions)) by {
        assert forall|j: int, k: int|
            0 <= j < after.junctions.len() && 0 <= k < after.junctions[j].connections.len()
                implies (#[trigger] after.junctions[j].connections[k]) < after.junctions.len() by {
            if j < before.junctions.len() {
                assert(before.junctions[j].connections[k] < before.junctions.len());
            }
        }
    }
    assert forall|j: int| 0 <= j < after.junctions.len() implies junction_refs_wf(
        after,
        #[trigger] after.junctions[j],
    ) by {
        if j < before.junctions.len() {
            assert(junction_refs_wf(before, before.junctions[j]));
        }
    }
    assert forall|i: int|
        0 <= i < after.trains.len() implies (#[trigger] after.trains[i] matches Some(t)
        ==> train_wf(after, t)) by {
        assert(before.trains[i] == after.trains[i]);
        if let Some(t) = after.trains[i] {
            assert(train_wf(before, t));
            assert(train_wf(after, t)) by {
                if let Some(r) = t.route {
                    assert(route_wf(before, r));
                }
                if let Some(bj) = t.blocking_signal {
                    assert(after.junctions[bj as int] == before.junctions[bj as int]);
                }
            }
        }
    }
}

/// Appending edges between two existing junctions keeps the world
/// well-formed.
proof fn lemma_wf_after_connect(before: WorldModel, after: WorldModel, a: usize, b: usize)
    requires
        wf(before),
        (a as int) < before.junctions.len(),
        (b as int) < before.junctions.len(),
        a != b,
        after.trains == before.trains,
        after.doomed == before.doomed,
        after.junctions == before.junctions.update(
            a as int,
            JunctionModel {
                connections: before.junctions[a as int].connections.push(b),
                ..before.junctions[a as int]
            },
        ).update(
            b as int,
            JunctionModel {
                connections: before.junctions[b as int].connections.push(a),
                ..before.junctions[b as int]
            },
        ),
    ensures
        wf(after),
{
    assert(after.junctions.len() == before.junctions.len());
    assert(graph_wf(after.junctions)) by {
        assert forall|j: int, k: int|
            0 <= j < after.junctions.len() && 0 <= k < after.junctions[j].connections.len()
                implies (#[trigger] after.junctions[j].connections[k]) < after.junctions.len() by {
            if j == a as int && j != b as int {
                if k < before.junctions[j].connections.len() {
                    assert(before.junctions[j].connections[k] < before.junctions.len());
                }
            } else if j == b as int {
                if k < before.junctions[j].connections.len() {
                    assert(before.junctions[j].connections[k] < before.junctions.len());
                }
            } else {
                assert(after.junctions[j] == before.junctions[j]);
                assert(before.junctions[j].connections[k] < before.junctions.len());
            }
        }
    }
    assert forall|j: int| 0 <= j < after.junctions.len() implies junction_refs_wf(
        after,
        #[trigger] after.junctions[j],
    ) by {
        assert(junction_refs_wf(before, before.junctions[j]));
        assert(after.junctions[j].signal == before.junctions[j].signal);
    }
    assert forall|i: int|
        0 <= i < after.trains.len() implies (#[trigger] after.trains[i] matches Some(t)
        ==> train_wf(after, t)) by {
        if let Some(t) = after.trains[i] {
            assert(train_wf(before, t));
            if let Some(bj) = t.blocking_signal {
                assert(after.junctions[bj as int].signal == before.junctions[bj as int].signal);
            }
        }
    }
}


impl World {
    /// Spawn a train idle at terminal `at` with the intent to travel to
    /// `destination`; returns its slot index.
    pub fn spawn_train(&mut self, at: usize, destination: usize, vmax: i64, amax: i64) -> (id:
        usize)
        requires
            old(self).wf(),
            (at as int) < old(self)@.junctions.len(),
            (destination as int) < old(self)@.junctions.len(),
            old(self)@.junctions[at as int].is_terminal,
            0 <= vmax <= crate::physics::CAP_RATE,
            1 <= amax <= crate::physics::CAP_RATE,
        ensures
            final(self).wf(),
            id == old(self)@.trains.len(),
            final(self)@.trains == old(self)@.trains.push(
                Some(
                    TrainModel {
                        position: old(self)@.junctions[at as int].position,
                        engine: TrainEngine {
                            velocity: Vector { x: 0, y: 0 },
                            acceleration: Vector { x: 0, y: 0 },
                            vmax: vmax,
                            amax: amax,
                        },
                        route: None,
                        in_station: Some(at),
                        destination: Some(destination),
                        blocking_signal: None,
                        limit_current: None,
                        limit_upcoming: None,
                    },
                ),
            ),
            final(self)@.junctions == old(self)@.junctions,
            final(self)@.doomed == old(self)@.doomed,
            final(self)@.errors == old(self)@.errors,
    {
        let id = self.trains.len();
        let position = self.junctions[at].position;
        self.trains.push(
            Some(
                Train {
                    position,
                    engine: TrainEngine {
                        velocity: Vector { x: 0, y: 0 },
                        acceleration: Vector { x: 0, y: 0 },
                        vmax,
                        amax,
                    },
                    route: None,
                    in_station: Some(at),
                    destination: Some(destination),
                    blocking_signal: None,
                    limit_current: None,
                    limit_upcoming: None,
                },
            ),
        );
        proof {
            let before = old(self)@;
            let after = self@;
            assert(after.trains =~= before.trains.push(after.trains[id as int]));
            assert(after.junctions =~= before.junctions);
            assert(after.doomed == before.doomed);
            assert(wf(after)) by {
                assert forall|j: int| 0 <= j < after.junctions.len() implies junction_refs_wf(
                    after,
                    #[trigger] after.junctions[j],
                ) by {
                    assert(junction_refs_wf(before, before.junctions[j]));
                }
                assert forall|i: int|
                    0 <= i < after.trains.len() implies (#[trigger] after.trains[i] matches Some(t)
                    ==> train_wf(after, t)) by {
                    if i < before.trains.len() {
                        assert(before.trains[i] == after.trains[i]);
                        if let Some(t) = after.trains[i] {
                            assert(train_wf(before, t));
                            assert(train_wf(after, t)) by {
                                if let Some(r) = t.route {
                                    assert(route_wf(before, r));
                                }
                            }
                        }
                    } else {
                        assert(i == id as int);
                    }
                }
                assert forall|k: int| 0 <= k < after.doomed.len() implies (
                    #[trigger] after.doomed[k] as int) < after.trains.len() by {
                    assert((before.doomed[k] as int) < before.trains.len());
                }
            }
        }
        id
    }
}

/// Applying the first `n` deferred removals, oldest first.
pub open spec fn commit_upto(w: WorldModel, n: int) -> WorldModel
    decreases n,
{
    if n <= 0 {
        w
    } else {
        let w1 = commit_upto(w, n - 1);
        let d = w.doomed[n - 1];
        if (d as int) < w1.trains.len() {
            WorldModel { trains: w1.trains.update(d as int, None), ..w1 }
        } else {
            w1
        }
    }
}

/// The commit phase: every deferred removal applied, the queue emptied.
pub open spec fn commit_spec(w: WorldModel) -> WorldModel {
    WorldModel { doomed: Seq::empty(), ..commit_upto(w, w.doomed.len() as int) }
}

/// The commit folds never touch anything but train slots.
pub proof fn lemma_commit_upto_frame(w: WorldModel, n: int)
    ensures
        commit_upto(w, n).junctions == w.junctions,
        commit_upto(w, n).doomed == w.doomed,
        commit_upto(w, n).errors == w.errors,
        commit_upto(w, n).trains.len() == w.trains.len(),
    decreases n,
{
    if n > 0 {
        lemma_commit_upto_frame(w, n - 1);
    }
}

impl World {
    /// Apply the deferred train removals queued during this tick (the commit
    /// phase): every doomed slot is emptied, the queue is cleared, and
    /// nothing else changes.
    pub fn commit(&mut self)
        requires
            old(self).wf(),
        ensures
            final(self).wf(),
            final(self)@ == commit_spec(old(self)@),
            forall|k: int|
                0 <= k < old(self)@.doomed.len() ==> final(self)@.trains[(
                #[trigger] old(self)@.doomed[k]) as int] is None,
    {
        let ghost w0 = self@;
        let n = self.doomed.len();
        let mut k: usize = 0;
        while k < n
            invariant
                wf(w0),
                k <= n,
                n == w0.doomed.len(),
                self.doomed@ == w0.doomed,
                self@.junctions == w0.junctions,
                self@.errors == w0.errors,
                self@.trains.len() == w0.trains.len(),
                self@ == commit_upto(w0, k as int),
            decreases n - k,
        {
            let ghost before = self@;
            let d = self.doomed[k];
            proof {
                assert(w0.doomed[k as int] == d);
                assert((d as int) < w0.trains.len());
            }
            self.trains.set(d, None);
            proof {
                assert(self@.trains =~= before.trains.update(d as int, None));
                assert(self@ =~= commit_upto(w0, k as int + 1));
            }
            k += 1;
        }
        self.doomed.clear();
        proof {
            let after = self@;
            assert(after =~= commit_spec(w0));
            lemma_commit_upto_frame(w0, n as int);
            assert(wf(after)) by {
                lemma_commit_upto_wf(w0, n as int);
            }
            assert forall|k2: int|
                0 <= k2 < w0.doomed.len() implies after.trains[(#[trigger] w0.doomed[k2]) as int]
                is None by {
                lemma_commit_upto_doomed_gone(w0, n as int, k2);
            }
        }
    }
}

/// Well-formedness survives the commit folds.
pub proof fn lemma_commit_upto_wf(w: WorldModel, n: int)
    requires
        wf(w),
    ensures
        wf(WorldModel { doomed: Seq::empty(), ..commit_upto(w, n) }),
    decreases n,
{
    lemma_commit_upto_frame(w, n);
    let after = WorldModel { doomed: Seq::empty(), ..commit_upto(w, n) };
    if n <= 0 {
        assert(after =~= WorldModel { doomed: Seq::empty(), ..w });
        assert(wf(after)) by {
            assert forall|j: int| 0 <= j < after.junctions.len() implies junction_refs_wf(
                after,
                #[trigger] after.junctions[j],
            ) by {
                assert(junction_refs_wf(w, w.junctions[j]));
            }
            assert forall|i: int|
                0 <= i < after.trains.len() implies (#[trigger] after.trains[i] matches Some(t)
                ==> train_wf(after, t)) by {
                if let Some(t) = after.trains[i] {
                    assert(w.trains[i] == after.trains[i]);
                    assert(train_wf(w, t));
                }
            }
        }
    } else {
        lemma_commit_upto_wf(w, n - 1);
        lemma_commit_upto_frame(w, n - 1);
        let prev = WorldModel { doomed: Seq::empty(), ..commit_upto(w, n - 1) };
        assert(wf(prev));
        assert(wf(after)) by {
            assert forall|j: int| 0 <= j < after.junctions.len() implies junction_refs_wf(
                after,
                #[trigger] after.junctions[j],
            ) by {
                assert(junction_refs_wf(prev, prev.junctions[j]));
            }
            assert forall|i: int|
                0 <= i < after.trains.len() implies (#[trigger] after.trains[i] matches Some(t)
                ==> train_wf(after, t)) by {
                if after.trains[i] is Some {
                    assert(after.trains[i] == prev.trains[i]);
                    if let Some(t) = after.trains[i] {
                        assert(train_wf(prev, t));
                    }
                }
            }
        }
    }
}

/// After the first `n` removals, every one of those slots is empty.
pub proof fn lemma_commit_upto_doomed_gone(w: WorldModel, n: int, k: int)
    requires
        0 <= k < n,
        forall|k2: int| 0 <= k2 < w.doomed.len() ==> (#[trigger] w.doomed[k2] as int) < w.trains.len(),
        n <= w.doomed.len(),
    ensures
        commit_upto(w, n).trains[w.doomed[k] as int] is None,
    decreases n,
{
    lemma_commit_upto_frame(w, n - 1);
    if k == n - 1 {
    } else {
        lemma_commit_upto_doomed_gone(w, n - 1, k);
        if w.doomed[n - 1] == w.doomed[k] {
        }
    }
}


/// Well-formedness survives replacing one train slot, provided the new
/// occupant is itself well-formed; nothing else may change.
pub proof fn lemma_wf_update_train(before: WorldModel, after: WorldModel, i: int)
    requires
        wf(before),
        0 <= i < before.trains.len(),
        after.junctions == before.junctions,
        after.doomed == before.doomed,
        after.trains == before.trains.update(i, after.trains[i]),
        after.trains[i] matches Some(t) ==> train_wf(after, t),
    ensures
        wf(after),
{
    assert forall|j: int| 0 <= j < after.junctions.len() implies junction_refs_wf(
        after,
        #[trigger] after.junctions[j],
    ) by {
        assert(junction_refs_wf(before, before.junctions[j]));
    }
    assert forall|k: int|
        0 <= k < after.trains.len() implies (#[trigger] after.trains[k] matches Some(t)
        ==> train_wf(after, t)) by {
        if k != i {
            assert(after.trains[k] == before.trains[k]);
            if let Some(t) = after.trains[k] {
                assert(train_wf(before, t));
                if let Some(r) = t.route {
                    assert(route_wf(before, r));
                }
            }
        }
    }
}

/// Well-formedness survives queueing an existing train slot for removal.
pub proof fn lemma_wf_push_doomed(before: WorldModel, after: WorldModel, i: usize)
    requires
        wf(before),
        (i as int) < before.trains.len(),
        after.junctions == before.junctions,
        after.trains == before.trains,
        after.doomed == before.doomed.push(i),
    ensures
        wf(after),
{
    assert forall|j: int| 0 <= j < after.junctions.len() implies junction_refs_wf(
        after,
        #[trigger] after.junctions[j],
    ) by {
        assert(junction_refs_wf(before, before.junctions[j]));
    }
    assert forall|k: int|
        0 <= k < after.trains.len() implies (#[trigger] after.trains[k] matches Some(t)
        ==> train_wf(after, t)) by {
        if let Some(t) = after.trains[k] {
            assert(train_wf(before, t));
            if let Some(r) = t.route {
                assert(route_wf(before, r));
            }
        }
    }
    assert forall|k: int|
        0 <= k < after.doomed.len() implies (#[trigger] after.doomed[k] as int)
        < after.trains.len() by {
        if k < before.doomed.len() {
            assert(before.doomed[k] == after.doomed[k]);
        }
    }
}

/// One routing step: a train idle in a station with a pending
/// travel intent either receives the planned route and stops being "in
/// station", or, when no route exists, is queued for removal.
pub open spec fn route_step(w: WorldModel, i: int) -> WorldModel {
    match w.trains[i] {
        Some(t) => match (t.in_station, t.destination) {
            (Some(st), Some(d)) => {
                if (st as int) < w.junctions.len() {
                    match plan_result_spec(w.junctions, st, d) {
                        Some(hops) => WorldModel {
                            trains: w.trains.update(
                                i,
                                Some(
                                    TrainModel {
                                        route: Some(RouteModel { hops: hops, dest: d }),
                                        in_station: None,
                                        destination: None,
                                        ..t
                                    },
                                ),
                            ),
                            ..w
                        },
                        None => WorldModel { doomed: w.doomed.push(i as usize), ..w },
                    }
                } else {
                    w
                }
            },
            _ => w,
        },
        None => w,
    }
}

pub open spec fn route_upto(w: WorldModel, n: int) -> WorldModel
    decreases n,
{
    if n <= 0 {
        w
    } else {
        route_step(route_upto(w, n - 1), n - 1)
    }
}

/// The whole routing phase: every train slot processed in index order.
pub open spec fn route_phase(w: WorldModel) -> WorldModel {
    route_upto(w, w.trains.len() as int)
}

impl World {
    /// The route-planning phase: give every waiting train a route
    /// to its destination, and queue for removal every train whose
    /// destination is unreachable.
    pub fn route_trains(&mut self)
        requires
            old(self).wf(),
        ensures
            final(self).wf(),
            final(self)@ == route_phase(old(self)@),
    {
        let ghost w0 = self@;
        let n = self.trains.len();
        let mut i: usize = 0;
        while i < n
            invariant
                wf(w0),
                i <= n,
                n == w0.trains.len(),
                wf(self@),
                self@ == route_upto(w0, i as int),
                self@.junctions == w0.junctions,
                self@.trains.len() == w0.trains.len(),
            decreases n - i,
        {
            let ghost before = self@;
            let mut pending: Option<(usize, usize)> = None;
            match &self.trains[i] {
                Some(t) => {
                    match (t.in_station, t.destination) {
                        (Some(st), Some(d)) => {
                            pending = Some((st, d));
                        },
                        _ => {},
                    }
                },
                None => {},
            }
            match pending {
                Some((st, d)) => {
                    proof {
                        assert(before.trains[i as int] matches Some(t) && train_wf(before, t));
                    }
                    let outcome = plan_route(&self.junctions, st, d);
                    match outcome {
                        Ok(route) => {
                            match &mut self.trains[i] {
                                Some(t) => {
                                    t.route = Some(route);
                                    t.in_station = None;
                                    t.destination = None;
                                },
                                None => {},
                            }
                            proof {
                                assert(self@.trains =~= before.trains.update(
                                    i as int,
                                    self@.trains[i as int],
                                ));
                                assert(self@ =~= route_step(before, i as int));
                                if let Some(tm) = self@.trains[i as int] {
                                    assert(train_wf(self@, tm)) by {
                                        if let Some(r) = tm.route {
                                            assert(route_wf(self@, r));
                                        }
                                    }
                                }
                                lemma_wf_update_train(before, self@, i as int);
                            }
                        },
                        Err(_) => {
                            self.doomed.push(i);
                            proof {
                                assert(self@.doomed =~= before.doomed.push(i));
                                assert(self@ =~= route_step(before, i as int));
                                lemma_wf_push_doomed(before, self@, i);
                            }
                        },
                    }
                },
                None => {
                    proof {
                        assert(self@ =~= route_step(before, i as int));
                    }
                },
            }
            i += 1;
        }
    }
}


/// One open-road controller step: re-aim the velocity and choose
/// the acceleration for train `i` if it is en route.
pub open spec fn road_step(w: WorldModel, i: int) -> WorldModel {
    match w.trains[i] {
        Some(t) => match t.route {
            Some(r) => {
                if r.hops.len() >= 1 && (r.hops[0] as int) < w.junctions.len() {
                    let hop = r.hops[0] as int;
                    let next_is_halt = match w.junctions[hop].signal {
                        Some(s) => s.is_halt_spec(),
                        None => false,
                    };
                    let nv = crate::physics::aimed_velocity_spec(
                        t.position,
                        w.junctions[hop].position,
                        t.engine,
                    );
                    let na = crate::physics::chosen_acceleration_spec(
                        t.position,
                        w.junctions[hop].position,
                        t.engine,
                        nv,
                        next_is_halt,
                        t.limit_current,
                        t.limit_upcoming,
                    );
                    WorldModel {
                        trains: w.trains.update(
                            i,
                            Some(
                                TrainModel {
                                    engine: TrainEngine {
                                        velocity: nv,
                                        acceleration: Vector { x: na.0 as i64, y: na.1 as i64 },
                                        ..t.engine
                                    },
                                    ..t
                                },
                            ),
                        ),
                        ..w
                    }
                } else {
                    w
                }
            },
            None => w,
        },
        None => w,
    }
}

pub open spec fn road_upto(w: WorldModel, n: int) -> WorldModel
    decreases n,
{
    if n <= 0 {
        w
    } else {
        road_step(road_upto(w, n - 1), n - 1)
    }
}

/// One in-station repositioning step: an idle train creeps to its
/// berth and snaps still there.
pub open spec fn station_step(w: WorldModel, i: int) -> WorldModel {
    match w.trains[i] {
        Some(t) => match t.in_station {
            Some(st) => {
                if (st as int) < w.junctions.len() {
                    let m = crate::physics::station_movement_spec(
                        t.position,
                        w.junctions[st as int].position,
                    );
                    WorldModel {
                        trains: w.trains.update(
                            i,
                            Some(
                                TrainModel {
                                    engine: TrainEngine {
                                        velocity: m.0,
                                        acceleration: m.1,
                                        ..t.engine
                                    },
                                    ..t
                                },
                            ),
                        ),
                        ..w
                    }
                } else {
                    w
                }
            },
            None => w,
        },
        None => w,
    }
}

pub open spec fn station_upto(w: WorldModel, n: int) -> WorldModel
    decreases n,
{
    if n <= 0 {
        w
    } else {
        station_step(station_upto(w, n - 1), n - 1)
    }
}

/// The whole kinematics-controller phase: the open-road pass over every
/// train, then the in-station pass.
pub open spec fn drive_phase(w: WorldModel) -> WorldModel {
    station_upto(road_upto(w, w.trains.len() as int), w.trains.len() as int)
}

/// One integration step: symplectic Euler over `dt` milliseconds.
pub open spec fn motion_step(w: WorldModel, i: int, dt: int) -> WorldModel {
    match w.trains[i] {
        Some(t) => {
            let m = crate::physics::integrate_spec(t.position, t.engine, dt);
            WorldModel {
                trains: w.trains.update(
                    i,
                    Some(
                        TrainModel {
                            position: m.0,
                            engine: TrainEngine { velocity: m.1, ..t.engine },
                            ..t
                        },
                    ),
                ),
                ..w
            }
        },
        None => w,
    }
}

pub open spec fn motion_upto(w: WorldModel, n: int, dt: int) -> WorldModel
    decreases n,
{
    if n <= 0 {
        w
    } else {
        motion_step(motion_upto(w, n - 1, dt), n - 1, dt)
    }
}

/// The whole integration phase.
pub open spec fn motion_phase(w: WorldModel, dt: int) -> WorldModel {
    motion_upto(w, w.trains.len() as int, dt)
}

impl World {
    /// The kinematics-controller phase: per en-route train, brake,
    /// accelerate or coast against the active speed limits and the next
    /// signal; per idle train, creep to the station berth.
    pub fn drive_trains(&mut self)
        requires
            old(self).wf(),
        ensures
            final(self).wf(),
            final(self)@ == drive_phase(old(self)@),
    {
        let ghost w0 = self@;
        let n = self.trains.len();
        let mut i: usize = 0;
        while i < n
            invariant
                wf(w0),
                i <= n,
                n == w0.trains.len(),
                wf(self@),
                self@ == road_upto(w0, i as int),
                self@.junctions == w0.junctions,
                self@.trains.len() == w0.trains.len(),
            decreases n - i,
        {
            let ghost before = self@;
            let mut inputs: Option<(Position, TrainEngine, usize, Option<SpeedLimit>, Option<
                SpeedLimit,
            >)> = None;
            match &self.trains[i] {
                Some(t) => {
                    match &t.route {
                        Some(r) => {
                            inputs = Some(
                                (t.position, t.engine, r.next_hop(), t.limit_current, t.limit_upcoming),
                            );
                        },
                        None => {},
                    }
                },
                None => {},
            }
            match inputs {
                Some((pos, engine, hop, lim_cur, lim_up)) => {
                    proof {
                        assert(before.trains[i as int] matches Some(t) && train_wf(before, t));
                    }
                    let next_position = self.junctions[hop].position;
                    let next_is_halt = match &self.junctions[hop].signal {
                        Some(s) => s.is_halt(),
                        None => false,
                    };
                    let m = crate::physics::plan_movement(
                        pos,
                        next_position,
                        &engine,
                        next_is_halt,
                        lim_cur,
                        lim_up,
                    );
                    match &mut self.trains[i] {
                        Some(t) => {
                            t.engine.velocity = m.0;
                            t.engine.acceleration = m.1;
                        },
                        None => {},
                    }
                    proof {
                        assert(self@.trains =~= before.trains.update(
                            i as int,
                            self@.trains[i as int],
                        ));
                        assert(self@ =~= road_step(before, i as int));
                        if let Some(tm) = self@.trains[i as int] {
                            assert(train_wf(self@, tm)) by {
                                if let Some(r) = tm.route {
                                    assert(route_wf(self@, r));
                                }
                            }
                        }
                        lemma_wf_update_train(before, self@, i as int);
                    }
                },
                None => {
                    proof {
                        assert(self@ =~= road_step(before, i as int));
                    }
                },
            }
            i += 1;
        }
        let ghost w1 = self@;
        let mut i: usize = 0;
        while i < n
            invariant
                wf(w1),
                i <= n,
                n == w1.trains.len(),
                wf(self@),
                self@ == station_upto(w1, i as int),
                self@.junctions == w1.junctions,
                self@.trains.len() == w1.trains.len(),
            decreases n - i,
        {
            let ghost before = self@;
            let mut inputs: Option<(Position, usize)> = None;
            match &self.trains[i] {
                Some(t) => {
                    match t.in_station {
                        Some(st) => {
                            inputs = Some((t.position, st));
                        },
                        None => {},
                    }
                },
                None => {},
            }
            match inputs {
                Some((pos, st)) => {
                    proof {
                        assert(before.trains[i as int] matches Some(t) && train_wf(before, t));
                    }
                    let berth = self.junctions[st].position;
                    let m = crate::physics::station_movement(pos, berth);
                    match &mut self.trains[i] {
                        Some(t) => {
                            t.engine.velocity = m.0;
                            t.engine.acceleration = m.1;
                        },
                        None => {},
                    }
                    proof {
                        assert(self@.trains =~= before.trains.update(
                            i as int,
                            self@.trains[i as int],
                        ));
                        assert(self@ =~= station_step(before, i as int));
                        if let Some(tm) = self@.trains[i as int] {
                            assert(train_wf(self@, tm)) by {
                                if let Some(r) = tm.route {
                                    assert(route_wf(self@, r));
                                }
                            }
                        }
                        lemma_wf_update_train(before, self@, i as int);
                    }
                },
                None => {
                    proof {
                        assert(self@ =~= station_step(before, i as int));
                    }
                },
            }
            i += 1;
        }
    }

    /// The integration phase: `velocity += acceleration * dt;
    /// position += velocity * dt`, identically for every train.
    pub fn integrate_motion(&mut self, dt: i64)
        requires
            old(self).wf(),
            dt >= 0,
        ensures
            final(self).wf(),
            final(self)@ == motion_phase(old(self)@, dt as int),
    {
        let ghost w0 = self@;
        let n = self.trains.len();
        let mut i: usize = 0;
        while i < n
            invariant
                wf(w0),
                i <= n,
                dt >= 0,
                n == w0.trains.len(),
                wf(self@),
                self@ == motion_upto(w0, i as int, dt as int),
                self@.junctions == w0.junctions,
                self@.trains.len() == w0.trains.len(),
            decreases n - i,
        {
            let ghost before = self@;
            let mut inputs: Option<(Position, TrainEngine)> = None;
            match &self.trains[i] {
                Some(t) => {
                    inputs = Some((t.position, t.engine));
                },
                None => {},
            }
            match inputs {
                Some((pos, engine)) => {
                    proof {
                        assert(before.trains[i as int] matches Some(t) && train_wf(before, t));
                    }
                    let m = crate::physics::integrate(pos, &engine, dt);
                    match &mut self.trains[i] {
                        Some(t) => {
                            t.position = m.0;
                            t.engine.velocity = m.1;
                        },
                        None => {},
                    }
                    proof {
                        assert(self@.trains =~= before.trains.update(
                            i as int,
                            self@.trains[i as int],
                        ));
                        assert(self@ =~= motion_step(before, i as int, dt as int));
                        if let Some(tm) = self@.trains[i as int] {
                            assert(train_wf(self@, tm)) by {
                                if let Some(r) = tm.route {
                                    assert(route_wf(self@, r));
                                }
                            }
                        }
                        lemma_wf_update_train(before, self@, i as int);
                    }
                },
                None => {
                    proof {
                        assert(self@ =~= motion_step(before, i as int, dt as int));
                    }
                },
            }
            i += 1;
        }
    }
}


/// The block hand-off performed when train `i` arrives at signal-bearing
/// junction `hop`: release the previously held block, consume the
/// reservation on `hop`, occupy `hop`, and promote the staged speed limit.
/// Each violation is reported as an error and the offending action skipped.
pub open spec fn handoff_spec(w: WorldModel, i: int, hop: usize) -> WorldModel {
    let w_occupied = handoff_occupied(w, i, hop);
    let t3 = w_occupied.trains[i].unwrap();
    WorldModel {
        trains: w_occupied.trains.update(
            i,
            Some(TrainModel { limit_current: t3.limit_upcoming, limit_upcoming: None, ..t3 }),
        ),
        ..w_occupied
    }
}

/// What happens when train `i` comes within the arrival radius of its next
/// hop: the hop is popped; a signal-bearing hop triggers the block
/// hand-off; reaching the final destination puts the train in station.
pub open spec fn navigate_arrival_spec(w: WorldModel, i: int) -> WorldModel {
    let t = w.trains[i].unwrap();
    let r = t.route.unwrap();
    let hop = r.hops[0];
    let popped = RouteModel { hops: r.hops.drop_first(), dest: r.dest };
    let w1 = WorldModel {
        trains: w.trains.update(i, Some(TrainModel { route: Some(popped), ..t })),
        ..w
    };
    let w2 = if w.junctions[hop as int].signal is Some {
        handoff_spec(w1, i, hop)
    } else {
        w1
    };
    if hop == r.dest {
        let t2 = w2.trains[i].unwrap();
        WorldModel {
            trains: w2.trains.update(
                i,
                Some(TrainModel { route: None, in_station: Some(hop), ..t2 }),
            ),
            ..w2
        }
    } else {
        w2
    }
}

/// One navigator step: nothing happens unless train `i` is en
/// route and within the arrival radius of its next hop.
pub open spec fn navigate_step(w: WorldModel, i: int) -> WorldModel {
    match w.trains[i] {
        Some(t) => match t.route {
            Some(r) => {
                if r.hops.len() >= 1 && (r.hops[0] as int) < w.junctions.len() {
                    let hop = r.hops[0];
                    if crate::physics::distance_spec(t.position, w.junctions[hop as int].position)
                        < ARRIVAL_RADIUS as int {
                        navigate_arrival_spec(w, i)
                    } else {
                        w
                    }
                } else {
                    w
                }
            },
            None => w,
        },
        None => w,
    }
}

pub open spec fn navigate_upto(w: WorldModel, n: int) -> WorldModel
    decreases n,
{
    if n <= 0 {
        w
    } else {
        navigate_step(navigate_upto(w, n - 1), n - 1)
    }
}

/// The whole navigator phase.
pub open spec fn navigate_phase(w: WorldModel) -> WorldModel {
    navigate_upto(w, w.trains.len() as int)
}

impl World {
    /// The navigator phase: advance each en-route train's hop
    /// pointer when it comes within the arrival radius, perform the block
    /// hand-off at signal-bearing hops, and berth trains that reach their
    /// destination. This is the only place where a block goes from reserved
    /// to occupied.
    #[verifier::rlimit(100)]
    pub fn navigate_trains(&mut self)
        requires
            old(self).wf(),
        ensures
            final(self).wf(),
            final(self)@ == navigate_phase(old(self)@),
    {
        let ghost w0 = self@;
        let n = self.trains.len();
        let mut i: usize = 0;
        while i < n
            invariant
                wf(w0),
                i <= n,
                n == w0.trains.len(),
                wf(self@),
                self@ == navigate_upto(w0, i as int),
                self@.junctions.len() == w0.junctions.len(),
                self@.trains.len() == w0.trains.len(),
            decreases n - i,
        {
            let ghost before = self@;
            let mut info: Option<(usize, usize, Position, Option<usize>)> = None;
            match &self.trains[i] {
                Some(t) => {
                    match &t.route {
                        Some(r) => {
                            proof {
                                assert(before.trains[i as int] matches Some(tm) && train_wf(
                                    before,
                                    tm,
                                ));
                            }
                            info = Some((r.next_hop(), r.dest, t.position, t.blocking_signal));
                        },
                        None => {},
                    }
                },
                None => {},
            }
            match info {
                Some((hop, dest_j, pos, blocking)) => {
                    proof {
                        assert(before.trains[i as int] matches Some(tm) && train_wf(before, tm));
                    }
                    let next_position = self.junctions[hop].position;
                    let dist = next_position.distance_length_to(&pos);
                    if dist < ARRIVAL_RADIUS as u64 {
                        // Pop the hop: it becomes "here".
                        match &mut self.trains[i] {
                            Some(t) => {
                                match &mut t.route {
                                    Some(r) => {
                                        let _ = r.arrived_at_hop();
                                    },
                                    None => {},
                                }
                            },
                            None => {},
                        }
                        let ghost w1 = self@;
                        proof {
                            let t0 = before.trains[i as int].unwrap();
                            let r0 = t0.route.unwrap();
                            assert(w1.trains =~= before.trains.update(
                                i as int,
                                Some(
                                    TrainModel {
                                        route: Some(
                                            RouteModel { hops: r0.hops.drop_first(), dest: r0.dest },
                                        ),
                                        ..t0
                                    },
                                ),
                            ));
                        }
                        let hop_has_signal = self.junctions[hop].signal.is_some();
                        if hop_has_signal {
                            // Release the block held from the previous signal.
                            match blocking {
                                Some(prev) => {
                                    let mut held = false;
                                    match &self.junctions[prev].signal {
                                        Some(s) => {
                                            match s.occupied_by {
                                                Some(o) => {
                                                    held = o == i;
                                                },
                                                None => {},
                                            }
                                        },
                                        None => {},
                                    }
                                    match &mut self.trains[i] {
                                        Some(t) => {
                                            t.blocking_signal = None;
                                        },
                                        None => {},
                                    }
                                    if held {
                                        match &mut self.junctions[prev].signal {
                                            Some(s) => {
                                                s.occupied_by = None;
                                            },
                                            None => {},
                                        }
                                    } else {
                                        self.errors.push(
                                            ProtocolError::BlockNotHeld { train: i, junction: prev },
                                        );
                                    }
                                },
                                None => {},
                            }
                            let ghost w_released = self@;
                            // Consume the reservation on "here". It is
                            // cleared whatever it held; one that was missing
                            // or another train's is stale and gets reported.
                            let mut own_reservation = false;
                            match &self.junctions[hop].signal {
                                Some(s) => {
                                    match s.reserved_for {
                                        Some(o) => {
                                            own_reservation = o == i;
                                        },
                                        None => {},
                                    }
                                },
                                None => {},
                            }
                            match &mut self.junctions[hop].signal {
                                Some(s) => {
                                    s.reserved_for = None;
                                },
                                None => {},
                            }
                            if !own_reservation {
                                self.errors.push(
                                    ProtocolError::ReservationNotHeld { train: i, junction: hop },
                                );
                            }
                            let ghost w_unreserved = self@;
                            // Physically occupy the block.
                            let mut occupant: Option<usize> = None;
                            match &self.junctions[hop].signal {
                                Some(s) => {
                                    occupant = s.occupied_by;
                                },
                                None => {},
                            }
                            match occupant {
                                None => {
                                    match &mut self.junctions[hop].signal {
                                        Some(s) => {
                                            s.occupied_by = Some(i);
                                        },
                                        None => {},
                                    }
                                    match &mut self.trains[i] {
                                        Some(t) => {
                                            t.blocking_signal = Some(hop);
                                        },
                                        None => {},
                                    }
                                },
                                Some(o) => {
                                    if o == i {
                                        match &mut self.trains[i] {
                                            Some(t) => {
                                                t.blocking_signal = Some(hop);
                                            },
                                            None => {},
                                        }
                                    } else {
                                        self.errors.push(
                                            ProtocolError::BlockAlreadyOccupied {
                                                train: i,
                                                junction: hop,
                                            },
                                        );
                                    }
                                },
                            }
                            let ghost w_occupied = self@;
                            // Promote the staged speed limit.
                            match &mut self.trains[i] {
                                Some(t) => {
                                    t.limit_current = t.limit_upcoming;
                                    t.limit_upcoming = None;
                                },
                                None => {},
                            }
                            proof {
                                assert(w_released.trains =~= handoff_released(w1, i as int).trains);
                                assert(w_released.junctions =~= handoff_released(
                                    w1,
                                    i as int,
                                ).junctions);
                                assert(w_released =~= handoff_released(w1, i as int));
                                assert(w_unreserved =~= handoff_unreserved(w1, i as int, hop));
                                assert(w_occupied =~= handoff_occupied(w1, i as int, hop));
                                assert(self@ =~= handoff_spec(w1, i as int, hop));
                            }
                        }
                        if hop == dest_j {
                            match &mut self.trains[i] {
                                Some(t) => {
                                    t.route = None;
                                    t.in_station = Some(hop);
                                },
                                None => {},
                            }
                        }
                        proof {
                            assert(self@ =~= navigate_arrival_spec(before, i as int));
                            assert(self@ =~= navigate_step(before, i as int));
                            lemma_navigate_step_wf(before, i as int);
                        }
                    } else {
                        proof {
                            assert(self@ =~= navigate_step(before, i as int));
                        }
                    }
                },
                None => {
                    proof {
                        assert(self@ =~= navigate_step(before, i as int));
                    }
                },
            }
            i += 1;
        }
    }
}

/// The hand-off state after only the previous block was released.
pub open spec fn handoff_released(w: WorldModel, i: int) -> WorldModel {
    let t = w.trains[i].unwrap();
    match t.blocking_signal {
        Some(prev) => {
            if (prev as int) < w.junctions.len() && w.junctions[prev as int].signal is Some {
                let pj = w.junctions[prev as int];
                let ps = pj.signal.unwrap();
                let cleared = WorldModel {
                    trains: w.trains.update(i, Some(TrainModel { blocking_signal: None, ..t })),
                    ..w
                };
                if ps.occupied_by == Some(i as usize) {
                    WorldModel {
                        junctions: cleared.junctions.update(
                            prev as int,
                            JunctionModel { signal: Some(JunctionSignal { occupied_by: None, ..ps }), ..pj },
                        ),
                        ..cleared
                    }
                } else {
                    WorldModel {
                        errors: cleared.errors.push(
                            ProtocolError::BlockNotHeld { train: i as usize, junction: prev },
                        ),
                        ..cleared
                    }
                }
            } else {
                w
            }
        },
        None => w,
    }
}

/// The hand-off state after the reservation on `hop` was consumed. The
/// reservation is always cleared before the block is occupied, so that the
/// signal never records one train's reservation beside another's occupancy;
/// a reservation that was missing or held by a different train is a stale
/// one and is reported.
pub open spec fn handoff_unreserved(w: WorldModel, i: int, hop: usize) -> WorldModel {
    let w_released = handoff_released(w, i);
    let hj = w_released.junctions[hop as int];
    let hs = hj.signal.unwrap();
    let cleared = WorldModel {
        junctions: w_released.junctions.update(
            hop as int,
            JunctionModel { signal: Some(JunctionSignal { reserved_for: None, ..hs }), ..hj },
        ),
        ..w_released
    };
    if hs.reserved_for == Some(i as usize) {
        cleared
    } else {
        WorldModel {
            errors: cleared.errors.push(
                ProtocolError::ReservationNotHeld { train: i as usize, junction: hop },
            ),
            ..cleared
        }
    }
}

/// The hand-off state after the block was occupied.
pub open spec fn handoff_occupied(w: WorldModel, i: int, hop: usize) -> WorldModel {
    let w_unreserved = handoff_unreserved(w, i, hop);
    let hj2 = w_unreserved.junctions[hop as int];
    let hs2 = hj2.signal.unwrap();
    let t2 = w_unreserved.trains[i].unwrap();
    match hs2.occupied_by {
        None => WorldModel {
            junctions: w_unreserved.junctions.update(
                hop as int,
                JunctionModel {
                    signal: Some(JunctionSignal { occupied_by: Some(i as usize), ..hs2 }),
                    ..hj2
                },
            ),
            trains: w_unreserved.trains.update(
                i,
                Some(TrainModel { blocking_signal: Some(hop), ..t2 }),
            ),
            ..w_unreserved
        },
        Some(o) => {
            if o == i as usize {
                WorldModel {
                    trains: w_unreserved.trains.update(
                        i,
                        Some(TrainModel { blocking_signal: Some(hop), ..t2 }),
                    ),
                    ..w_unreserved
                }
            } else {
                WorldModel {
                    errors: w_unreserved.errors.push(
                        ProtocolError::BlockAlreadyOccupied { train: i as usize, junction: hop },
                    ),
                    ..w_unreserved
                }
            }
        },
    }
}

/// A well-formed train stays well-formed in a world with the same graph
/// shape (same junction count, signals on the same junctions).
pub proof fn lemma_train_wf_transfer(before: WorldModel, after: WorldModel, t: TrainModel)
    requires
        train_wf(before, t),
        after.junctions.len() == before.junctions.len(),
        forall|j: int|
            0 <= j < after.junctions.len() ==> ((#[trigger] after.junctions[j]).signal is Some
                <==> before.junctions[j].signal is Some),
    ensures
        train_wf(after, t),
{
    if let Some(r) = t.route {
        assert(route_wf(before, r));
    }
    if let Some(bj) = t.blocking_signal {
        assert(after.junctions[bj as int].signal is Some);
    }
}

/// Well-formedness follows whenever the graph shape is kept, every signal's
/// back-references are valid, and every train is well-formed.
pub proof fn lemma_wf_similar(before: WorldModel, after: WorldModel)
    requires
        wf(before),
        after.trains.len() == before.trains.len(),
        after.junctions.len() == before.junctions.len(),
        after.doomed == before.doomed,
        forall|j: int|
            0 <= j < after.junctions.len() ==> (#[trigger] after.junctions[j]).connections
                == before.junctions[j].connections,
        forall|j: int|
            0 <= j < after.junctions.len() ==> junction_refs_wf(after, #[trigger] after.junctions[j]),
        forall|k: int|
            0 <= k < after.trains.len() ==> (#[trigger] after.trains[k] matches Some(t)
                ==> train_wf(after, t)),
    ensures
        wf(after),
{
    assert(graph_wf(after.junctions)) by {
        assert forall|j: int, k: int|
            0 <= j < after.junctions.len() && 0 <= k < after.junctions[j].connections.len()
                implies (#[trigger] after.junctions[j].connections[k])
                < after.junctions.len() by {
            assert(after.junctions[j].connections == before.junctions[j].connections);
            assert(before.junctions[j].connections[k] < before.junctions.len());
        }
    }
    assert forall|k: int|
        0 <= k < after.doomed.len() implies (#[trigger] after.doomed[k] as int)
        < after.trains.len() by {
        assert(before.doomed[k] == after.doomed[k]);
    }
}

/// The shape of the hand-off: only the two touched signals' back-references
/// and train `i`'s bookkeeping fields change, and in a constrained way.
pub proof fn lemma_handoff_shape(w: WorldModel, i: int, hop: usize)
    requires
        0 <= i < w.trains.len(),
        w.trains[i] is Some,
        (hop as int) < w.junctions.len(),
        w.junctions[hop as int].signal is Some,
        w.trains[i].unwrap().blocking_signal matches Some(prev) ==> (prev as int)
            < w.junctions.len() && w.junctions[prev as int].signal is Some,
    ensures
        handoff_spec(w, i, hop).trains.len() == w.trains.len(),
        handoff_spec(w, i, hop).junctions.len() == w.junctions.len(),
        handoff_spec(w, i, hop).doomed == w.doomed,
        forall|j: int|
            0 <= j < w.junctions.len() ==> (#[trigger] handoff_spec(w, i, hop).junctions[j]).connections
                == w.junctions[j].connections,
        forall|j: int|
            0 <= j < w.junctions.len() ==> ((#[trigger] handoff_spec(w, i, hop).junctions[j]).signal
                is Some <==> w.junctions[j].signal is Some),
        forall|j: int|
            0 <= j < w.junctions.len() ==> (#[trigger] handoff_spec(w, i, hop).junctions[j]).is_terminal
                == w.junctions[j].is_terminal && handoff_spec(w, i, hop).junctions[j].position
                == w.junctions[j].position,
        forall|j: int|
            0 <= j < w.junctions.len() ==> ((#[trigger] handoff_spec(w, i, hop).junctions[j]).signal
                matches Some(s) ==> {
                let olds = w.junctions[j].signal.unwrap();
                &&& (s.reserved_for == olds.reserved_for || s.reserved_for is None)
                &&& (s.occupied_by == olds.occupied_by || s.occupied_by is None || s.occupied_by
                    == Some(i as usize))
            }),
        forall|k: int|
            0 <= k < w.trains.len() && k != i ==> #[trigger] handoff_spec(w, i, hop).trains[k]
                == w.trains[k],
        handoff_spec(w, i, hop).trains[i] matches Some(t2) && {
            let t = w.trains[i].unwrap();
            &&& (t2.blocking_signal is None || t2.blocking_signal == Some(hop))
            &&& t2.route == t.route
            &&& t2.position == t.position
            &&& t2.engine == t.engine
            &&& t2.in_station == t.in_station
            &&& t2.destination == t.destination
            &&& t2.limit_current == t.limit_upcoming
            &&& t2.limit_upcoming is None
        },
{
}

/// One navigator step keeps the world well-formed.
pub proof fn lemma_navigate_step_wf(w: WorldModel, i: int)
    requires
        wf(w),
        0 <= i < w.trains.len(),
    ensures
        wf(navigate_step(w, i)),
{
    let a = navigate_step(w, i);
    if a == w {
    }
    match w.trains[i] {
        Some(t) => match t.route {
            Some(r) => {
                if r.hops.len() >= 1 && (r.hops[0] as int) < w.junctions.len()
                    && crate::physics::distance_spec(
                    t.position,
                    w.junctions[r.hops[0] as int].position,
                ) < ARRIVAL_RADIUS as int {
                    assert(train_wf(w, t));
                    assert(route_wf(w, r));
                    let hop = r.hops[0];
                    let popped = RouteModel { hops: r.hops.drop_first(), dest: r.dest };
                    let t1 = TrainModel { route: Some(popped), ..t };
                    let w1 = WorldModel { trains: w.trains.update(i, Some(t1)), ..w };
                    let w2 = if w.junctions[hop as int].signal is Some {
                        handoff_spec(w1, i, hop)
                    } else {
                        w1
                    };
                    if w.junctions[hop as int].signal is Some {
                        lemma_handoff_shape(w1, i, hop);
                    }
                    // Shared shape facts for both cases.
                    assert(w2.trains.len() == w.trains.len());
                    assert(w2.junctions.len() == w.junctions.len());
                    assert(w2.doomed == w.doomed);
                    assert(forall|j: int|
                        0 <= j < w.junctions.len() ==> (#[trigger] w2.junctions[j]).connections
                            == w.junctions[j].connections);
                    assert(forall|j: int|
                        0 <= j < w.junctions.len() ==> ((#[trigger] w2.junctions[j]).signal is Some
                            <==> w.junctions[j].signal is Some));
                    assert(forall|k: int|
                        0 <= k < w.trains.len() && k != i ==> #[trigger] w2.trains[k]
                            == w.trains[k]);
                    let t2 = w2.trains[i].unwrap();
                    assert(w2.trains[i] is Some);
                    assert(t2.engine == t.engine);
                    assert(t2.route == Some(popped));
                    assert(t2.in_station == t.in_station);
                    assert(t2.destination == t.destination);
                    assert(t2.blocking_signal is None || t2.blocking_signal == Some(hop)
                        || t2.blocking_signal == t.blocking_signal);
                    assert(t2.limit_current == t.limit_upcoming || t2.limit_current
                        == t.limit_current);
                    assert(t2.limit_upcoming is None || t2.limit_upcoming == t.limit_upcoming);
                    let tfin = if hop == r.dest {
                        TrainModel { route: None, in_station: Some(hop), ..t2 }
                    } else {
                        t2
                    };
                    let afin = if hop == r.dest {
                        WorldModel { trains: w2.trains.update(i, Some(tfin)), ..w2 }
                    } else {
                        w2
                    };
                    assert(a == afin);
                    // Train `i` is well-formed afterwards.
                    assert(train_wf(afin, tfin)) by {
                        if hop == r.dest {
                        } else {
                            assert(r.hops[r.hops.len() - 1] == r.dest);
                            assert(r.hops.len() >= 2) by {
                                if r.hops.len() == 1 {
                                    assert(r.hops[0] == r.dest);
                                }
                            }
                            assert(popped.hops.len() >= 1);
                            assert(popped.hops[popped.hops.len() - 1] == r.hops[r.hops.len() - 1]);
                            assert(forall|x: int|
                                0 <= x < popped.hops.len() ==> (#[trigger] popped.hops[x] as int)
                                    < afin.junctions.len());
                            assert(route_wf(afin, popped));
                        }
                    }
                    // Every other train as well.
                    assert forall|k: int|
                        0 <= k < afin.trains.len() implies (#[trigger] afin.trains[k] matches Some(
                        tk,
                    ) ==> train_wf(afin, tk)) by {
                        if k != i {
                            assert(afin.trains[k] == w.trains[k]);
                            if let Some(tk) = afin.trains[k] {
                                assert(train_wf(w, tk));
                                lemma_train_wf_transfer(w, afin, tk);
                            }
                        }
                    }
                    // Signal back-references stay valid.
                    assert forall|j: int|
                        0 <= j < afin.junctions.len() implies junction_refs_wf(
                        afin,
                        #[trigger] afin.junctions[j],
                    ) by {
                        assert(junction_refs_wf(w, w.junctions[j]));
                        if afin.junctions[j].signal is Some {
                            let s = afin.junctions[j].signal.unwrap();
                            let olds = w.junctions[j].signal.unwrap();
                            assert(s.reserved_for == olds.reserved_for || s.reserved_for is None);
                            assert(s.occupied_by == olds.occupied_by || s.occupied_by is None
                                || s.occupied_by == Some(i as usize));
                        }
                    }
                    lemma_wf_similar(w, afin);
                    assert(wf(a));
                }
            },
            None => {},
        },
        None => {},
    }
}


/// The signal-bearing hops among `hops`, in route order.
pub open spec fn signal_hops(g: Seq<JunctionModel>, hops: Seq<usize>) -> Seq<usize>
    decreases hops.len(),
{
    if hops.len() == 0 {
        Seq::empty()
    } else {
        let rest = signal_hops(g, hops.drop_first());
        if (hops[0] as int) < g.len() && g[hops[0] as int].signal is Some {
            seq![hops[0]] + rest
        } else {
            rest
        }
    }
}

/// Every signal hop is a valid junction id carrying a signal.
pub proof fn lemma_signal_hops_elems(g: Seq<JunctionModel>, hops: Seq<usize>)
    ensures
        forall|x: int|
            0 <= x < signal_hops(g, hops).len() ==> ((#[trigger] signal_hops(g, hops)[x] as int)
                < g.len() && g[signal_hops(g, hops)[x] as int].signal is Some),
    decreases hops.len(),
{
    if hops.len() > 0 {
        lemma_signal_hops_elems(g, hops.drop_first());
        let rest = signal_hops(g, hops.drop_first());
        if (hops[0] as int) < g.len() && g[hops[0] as int].signal is Some {
            assert(forall|x: int|
                0 <= x < rest.len() ==> signal_hops(g, hops)[x + 1] == #[trigger] rest[x]);
        }
    }
}

/// `w` with the reservation slot of the signal at `j` replaced.
pub open spec fn with_reservation(w: WorldModel, j: usize, t: Option<usize>) -> WorldModel {
    let jm = w.junctions[j as int];
    let s = jm.signal.unwrap();
    WorldModel {
        junctions: w.junctions.update(
            j as int,
            JunctionModel { signal: Some(JunctionSignal { reserved_for: t, ..s }), ..jm },
        ),
        ..w
    }
}

/// `w` with the displayed state of the signal at `j` replaced.
pub open spec fn with_signal_state(w: WorldModel, j: usize, st: crate::signals::SignalState) -> WorldModel {
    let jm = w.junctions[j as int];
    let s = jm.signal.unwrap();
    WorldModel {
        junctions: w.junctions.update(
            j as int,
            JunctionModel { signal: Some(JunctionSignal { signal_state: st, ..s }), ..jm },
        ),
        ..w
    }
}

/// Replacing a reservation with a valid train id keeps the world well-formed.
pub proof fn lemma_wf_with_reservation(w: WorldModel, j: usize, t: Option<usize>)
    requires
        wf(w),
        (j as int) < w.junctions.len(),
        w.junctions[j as int].signal is Some,
        t matches Some(i) ==> (i as int) < w.trains.len(),
    ensures
        wf(with_reservation(w, j, t)),
{
    let a = with_reservation(w, j, t);
    assert forall|x: int| 0 <= x < a.junctions.len() implies junction_refs_wf(
        a,
        #[trigger] a.junctions[x],
    ) by {
        assert(junction_refs_wf(w, w.junctions[x]));
    }
    assert forall|k: int|
        0 <= k < a.trains.len() implies (#[trigger] a.trains[k] matches Some(tk) ==> train_wf(
        a,
        tk,
    )) by {
        if let Some(tk) = a.trains[k] {
            assert(train_wf(w, tk));
            lemma_train_wf_transfer(w, a, tk);
        }
    }
    lemma_wf_similar(w, a);
}

/// Changing a displayed signal state keeps the world well-formed.
pub proof fn lemma_wf_with_signal_state(w: WorldModel, j: usize, st: crate::signals::SignalState)
    requires
        wf(w),
        (j as int) < w.junctions.len(),
        w.junctions[j as int].signal is Some,
    ensures
        wf(with_signal_state(w, j, st)),
{
    let a = with_signal_state(w, j, st);
    assert forall|x: int| 0 <= x < a.junctions.len() implies junction_refs_wf(
        a,
        #[trigger] a.junctions[x],
    ) by {
        assert(junction_refs_wf(w, w.junctions[x]));
    }
    assert forall|k: int|
        0 <= k < a.trains.len() implies (#[trigger] a.trains[k] matches Some(tk) ==> train_wf(
        a,
        tk,
    )) by {
        if let Some(tk) = a.trains[k] {
            assert(train_wf(w, tk));
            lemma_train_wf_transfer(w, a, tk);
        }
    }
    lemma_wf_similar(w, a);
}

/// Whether train `i` may hold a reservation on `sig`: the signal is already
/// reserved for it, or it is unreserved and its block is not physically
/// occupied by a different train. A block another train still stands in is
/// never granted to an approaching train.
pub open spec fn grantable(sig: JunctionSignal, i: int) -> bool {
    match sig.reserved_for {
        Some(o) => o == i as usize,
        None => match sig.occupied_by {
            Some(o) => o == i as usize,
            None => true,
        },
    }
}

/// One reservation-granting step, the first dispatcher pass: train `i` tries to
/// reserve the first two signal-bearing hops of its route, in route order,
/// stopping at a foreign reservation or at a block another train still
/// occupies. With both held, its first signal becomes eligible to show Go,
/// and a speed limit derived from the gap between the two signals is staged
/// unless one is already staged.
pub open spec fn grant_step(w: WorldModel, go: Seq<usize>, i: int) -> (WorldModel, Seq<usize>) {
    match w.trains[i] {
        Some(t) => match t.route {
            Some(r) => {
                let sigs = signal_hops(w.junctions, r.hops);
                if sigs.len() == 0 {
                    (w, go)
                } else {
                    let s0 = sigs[0];
                    let sig0 = w.junctions[s0 as int].signal.unwrap();
                    if !grantable(sig0, i) {
                        (w, go)
                    } else {
                        let w_r0 = if sig0.reserved_for is None {
                            with_reservation(w, s0, Some(i as usize))
                        } else {
                            w
                        };
                        if sigs.len() == 1 {
                            (w_r0, go)
                        } else {
                            let s1 = sigs[1];
                            let sig1 = w_r0.junctions[s1 as int].signal.unwrap();
                            if !grantable(sig1, i) {
                                (w_r0, go)
                            } else {
                                let w_r1 = if sig1.reserved_for is None {
                                    with_reservation(w_r0, s1, Some(i as usize))
                                } else {
                                    w_r0
                                };
                                let go2 = go.push(s0);
                                let t2 = w_r1.trains[i].unwrap();
                                if t2.limit_upcoming is None {
                                    let gap = crate::physics::distance_spec(
                                        w_r1.junctions[s1 as int].position,
                                        w_r1.junctions[s0 as int].position,
                                    );
                                    let staged = crate::signals::staged_limit_spec(gap);
                                    (
                                        WorldModel {
                                            trains: w_r1.trains.update(
                                                i,
                                                Some(TrainModel { limit_upcoming: staged, ..t2 }),
                                            ),
                                            ..w_r1
                                        },
                                        go2,
                                    )
                                } else {
                                    (w_r1, go2)
                                }
                            }
                        }
                    }
                }
            },
            None => (w, go),
        },
        None => (w, go),
    }
}

pub open spec fn grant_upto(w: WorldModel, n: int) -> (WorldModel, Seq<usize>)
    decreases n,
{
    if n <= 0 {
        (w, Seq::empty())
    } else {
        let prev = grant_upto(w, n - 1);
        grant_step(prev.0, prev.1, n - 1)
    }
}

/// One state-derivation step, the second dispatcher pass: an occupied signal shows
/// Halt; a reserved one shows Go (or Slow under a low staged limit) when
/// eligible and Halt otherwise; an idle one goes Dark.
pub open spec fn derive_step(w: WorldModel, go: Seq<usize>, j: int) -> WorldModel {
    match w.junctions[j].signal {
        Some(s) => {
            let st = if s.occupied_by is Some {
                crate::signals::SignalState::Halt
            } else {
                match s.reserved_for {
                    Some(t) => {
                        if go.contains(j as usize) {
                            let slow = {
                                &&& (t as int) < w.trains.len()
                                &&& w.trains[t as int] matches Some(tm)
                                &&& tm.limit_upcoming matches Some(l)
                                &&& l.vmax < crate::signals::VMAX_FOR_SLOW
                            };
                            if slow {
                                crate::signals::SignalState::Slow
                            } else {
                                crate::signals::SignalState::Go
                            }
                        } else {
                            crate::signals::SignalState::Halt
                        }
                    },
                    None => crate::signals::SignalState::Dark,
                }
            };
            with_signal_state(w, j as usize, st)
        },
        None => w,
    }
}

pub open spec fn derive_upto(w: WorldModel, go: Seq<usize>, n: int) -> WorldModel
    decreases n,
{
    if n <= 0 {
        w
    } else {
        derive_step(derive_upto(w, go, n - 1), go, n - 1)
    }
}

/// The whole dispatcher phase: reservations granted train by train, then
/// every signal's displayed state derived.
pub open spec fn dispatch_phase(w: WorldModel) -> WorldModel {
    let granted = grant_upto(w, w.trains.len() as int);
    derive_upto(granted.0, granted.1, granted.0.junctions.len() as int)
}

/// The first two signal-bearing hops of `hops`, if they exist.
fn first_two_signals(junctions: &Vec<Junction>, hops: &Vec<usize>) -> (r: (
    Option<usize>,
    Option<usize>,
))
    ensures
        ({
            let sigs = signal_hops(graph_model(junctions@), hops@);
            &&& (r.0 is None ==> sigs.len() == 0 && r.1 is None)
            &&& (r.0 matches Some(a) ==> sigs.len() >= 1 && sigs[0] == a)
            &&& (r.1 matches Some(b) ==> sigs.len() >= 2 && sigs[1] == b)
            &&& (r.0 is Some && r.1 is None ==> sigs.len() == 1)
        }),
{
    let ghost g = graph_model(junctions@);
    let ghost full = hops@;
    let n = hops.len();
    let mut c0: Option<usize> = None;
    let mut c1: Option<usize> = None;
    let mut k: usize = 0;
    proof {
        assert(full.skip(0) =~= full);
    }
    while k < n && c1.is_none()
        invariant
            k <= n,
            n == full.len(),
            g == graph_model(junctions@),
            full == hops@,
            c0 is None ==> c1 is None && signal_hops(g, full) == signal_hops(
                g,
                full.skip(k as int),
            ),
            c0 is Some && c1 is None ==> signal_hops(g, full) == seq![c0.unwrap()]
                + signal_hops(g, full.skip(k as int)),
            c0 is Some && c1 is Some ==> signal_hops(g, full).len() >= 2 && signal_hops(
                g,
                full,
            )[0] == c0.unwrap() && signal_hops(g, full)[1] == c1.unwrap(),
        decreases n - k,
    {
        let h = hops[k];
        let ghost pending = full.skip(k as int);
        proof {
            assert(pending[0] == h);
            assert(pending.drop_first() =~= full.skip(k as int + 1));
        }
        let carries = h < junctions.len() && junctions[h].signal.is_some();
        if carries {
            match c0 {
                None => {
                    c0 = Some(h);
                },
                Some(a) => {
                    c1 = Some(h);
                    proof {
                        let sigs = signal_hops(g, full);
                        assert(signal_hops(g, pending)[0] == h);
                        assert(sigs == seq![a] + signal_hops(g, pending));
                        assert(sigs.len() >= 2 && sigs[0] == a && sigs[1] == h);
                    }
                },
            }
        }
        k += 1;
    }
    proof {
        if k >= n {
            assert(full.skip(n as int) =~= Seq::<usize>::empty());
        }
    }
    (c0, c1)
}


impl World {
    /// The signal-dispatcher phase: grant forward block
    /// reservations to every en-route train, two signals ahead and strictly
    /// in route order — never onto a block that a different train still
    /// occupies — then derive every signal's displayed state.
    #[verifier::rlimit(100)]
    pub fn dispatch_signals(&mut self)
        requires
            old(self).wf(),
        ensures
            final(self).wf(),
            final(self)@ == dispatch_phase(old(self)@),
    {
        let ghost w0 = self@;
        let n = self.trains.len();
        let mut go: Vec<usize> = Vec::new();
        let mut i: usize = 0;
        proof {
            assert(go@ =~= grant_upto(w0, 0).1);
        }
        while i < n
            invariant
                wf(w0),
                i <= n,
                n == w0.trains.len(),
                wf(self@),
                self@ == grant_upto(w0, i as int).0,
                go@ == grant_upto(w0, i as int).1,
                self@.junctions.len() == w0.junctions.len(),
                self@.trains.len() == w0.trains.len(),
            decreases n - i,
        {
            let ghost before = self@;
            let ghost go_before = go@;
            let mut pair: Option<(Option<usize>, Option<usize>)> = None;
            match &self.trains[i] {
                Some(t) => {
                    match &t.route {
                        Some(r) => {
                            pair = Some(first_two_signals(&self.junctions, &r.hops));
                        },
                        None => {},
                    }
                },
                None => {},
            }
            match pair {
                Some((c0, c1)) => {
                    let ghost rm = before.trains[i as int].unwrap().route.unwrap();
                    let ghost sigs = signal_hops(before.junctions, rm.hops);
                    proof {
                        lemma_signal_hops_elems(before.junctions, rm.hops);
                    }
                    match c0 {
                        None => {
                            proof {
                                assert((self@, go@) == grant_step(before, go_before, i as int));
                            }
                        },
                        Some(s0) => {
                            let mut rsvp0: Option<usize> = None;
                            let mut occ0: Option<usize> = None;
                            match &self.junctions[s0].signal {
                                Some(s) => {
                                    rsvp0 = s.reserved_for;
                                    occ0 = s.occupied_by;
                                },
                                None => {},
                            }
                            let stopped = match rsvp0 {
                                Some(o) => o != i,
                                None => match occ0 {
                                    Some(o) => o != i,
                                    None => false,
                                },
                            };
                            if stopped {
                                proof {
                                    assert((self@, go@) == grant_step(before, go_before, i as int));
                                }
                            } else {
                                if rsvp0.is_none() {
                                    match &mut self.junctions[s0].signal {
                                        Some(s) => {
                                            s.reserved_for = Some(i);
                                        },
                                        None => {},
                                    }
                                    proof {
                                        assert(self@ =~= with_reservation(before, s0, Some(i)));
                                        lemma_wf_with_reservation(before, s0, Some(i));
                                    }
                                }
                                let ghost w_r0 = self@;
                                match c1 {
                                    None => {
                                        proof {
                                            assert((self@, go@) == grant_step(
                                                before,
                                                go_before,
                                                i as int,
                                            ));
                                        }
                                    },
                                    Some(s1) => {
                                        let mut rsvp1: Option<usize> = None;
                                        let mut occ1: Option<usize> = None;
                                        match &self.junctions[s1].signal {
                                            Some(s) => {
                                                rsvp1 = s.reserved_for;
                                                occ1 = s.occupied_by;
                                            },
                                            None => {},
                                        }
                                        let stopped1 = match rsvp1 {
                                            Some(o) => o != i,
                                            None => match occ1 {
                                                Some(o) => o != i,
                                                None => false,
                                            },
                                        };
                                        if stopped1 {
                                            proof {
                                                assert((self@, go@) == grant_step(
                                                    before,
                                                    go_before,
                                                    i as int,
                                                ));
                                            }
                                        } else {
                                            if rsvp1.is_none() {
                                                match &mut self.junctions[s1].signal {
                                                    Some(s) => {
                                                        s.reserved_for = Some(i);
                                                    },
                                                    None => {},
                                                }
                                                proof {
                                                    assert(self@ =~= with_reservation(
                                                        w_r0,
                                                        s1,
                                                        Some(i),
                                                    ));
                                                    lemma_wf_with_reservation(w_r0, s1, Some(i));
                                                }
                                            }
                                            let ghost w_r1 = self@;
                                            go.push(s0);
                                            let mut limit_missing = false;
                                            match &self.trains[i] {
                                                Some(t) => {
                                                    limit_missing = t.limit_upcoming.is_none();
                                                },
                                                None => {},
                                            }
                                            if limit_missing {
                                                let gap = self.junctions[s0].position
                                                    .distance_length_to(
                                                    &self.junctions[s1].position,
                                                );
                                                let staged = crate::signals::derive_speed_limit(
                                                    gap,
                                                );
                                                match &mut self.trains[i] {
                                                    Some(t) => {
                                                        t.limit_upcoming = staged;
                                                    },
                                                    None => {},
                                                }
                                                proof {
                                                    assert(self@.trains =~= w_r1.trains.update(
                                                        i as int,
                                                        self@.trains[i as int],
                                                    ));
                                                    if let Some(tm) = self@.trains[i as int] {
                                                        assert(train_wf(self@, tm)) by {
                                                            if let Some(r2) = tm.route {
                                                                assert(route_wf(self@, r2));
                                                            }
                                                        }
                                                    }
                                                    lemma_wf_update_train(w_r1, self@, i as int);
                                                }
                                            }
                                            proof {
                                                assert((self@, go@) =~= grant_step(
                                                    before,
                                                    go_before,
                                                    i as int,
                                                ));
                                            }
                                        }
                                    },
                                }
                            }
                        },
                    }
                },
                None => {
                    proof {
                        assert((self@, go@) == grant_step(before, go_before, i as int));
                    }
                },
            }
            i += 1;
        }
        let ghost w_granted = self@;
        let ghost go_seq = go@;
        let m = self.junctions.len();
        let mut j: usize = 0;
        while j < m
            invariant
                wf(w_granted),
                j <= m,
                m == w_granted.junctions.len(),
                wf(self@),
                go@ == go_seq,
                self@ == derive_upto(w_granted, go_seq, j as int),
                self@.junctions.len() == w_granted.junctions.len(),
                self@.trains.len() == w_granted.trains.len(),
            decreases m - j,
        {
            let ghost before = self@;
            let mut sig: Option<JunctionSignal> = None;
            match &self.junctions[j].signal {
                Some(s) => {
                    sig = Some(*s);
                },
                None => {},
            }
            match sig {
                None => {
                    proof {
                        assert(self@ == derive_step(before, go_seq, j as int));
                    }
                },
                Some(s) => {
                    let new_state: crate::signals::SignalState = if s.occupied_by.is_some() {
                        crate::signals::SignalState::Halt
                    } else {
                        match s.reserved_for {
                            Some(t) => {
                                if crate::routing::contains_id(&go, j) {
                                    proof {
                                        assert(junction_refs_wf(before, before.junctions[j as int]));
                                    }
                                    let mut slow = false;
                                    match &self.trains[t] {
                                        Some(tm) => {
                                            match tm.limit_upcoming {
                                                Some(l) => {
                                                    slow = l.vmax < crate::signals::VMAX_FOR_SLOW;
                                                },
                                                None => {},
                                            }
                                        },
                                        None => {},
                                    }
                                    if slow {
                                        crate::signals::SignalState::Slow
                                    } else {
                                        crate::signals::SignalState::Go
                                    }
                                } else {
                                    crate::signals::SignalState::Halt
                                }
                            },
                            None => crate::signals::SignalState::Dark,
                        }
                    };
                    match &mut self.junctions[j].signal {
                        Some(s) => {
                            s.signal_state = new_state;
                        },
                        None => {},
                    }
                    proof {
                        assert(self@ =~= with_signal_state(before, j, new_state));
                        assert(self@ == derive_step(before, go_seq, j as int));
                        lemma_wf_with_signal_state(before, j, new_state);
                    }
                },
            }
            j += 1;
        }
    }
}


/// `w` with the occupancy slot of the signal at `j` replaced.
pub open spec fn with_occupancy(w: WorldModel, j: usize, t: Option<usize>) -> WorldModel {
    let jm = w.junctions[j as int];
    let s = jm.signal.unwrap();
    WorldModel {
        junctions: w.junctions.update(
            j as int,
            JunctionModel { signal: Some(JunctionSignal { occupied_by: t, ..s }), ..jm },
        ),
        ..w
    }
}

/// Replacing an occupancy with a valid train id keeps the world well-formed.
pub proof fn lemma_wf_with_occupancy(w: WorldModel, j: usize, t: Option<usize>)
    requires
        wf(w),
        (j as int) < w.junctions.len(),
        w.junctions[j as int].signal is Some,
        t matches Some(i) ==> (i as int) < w.trains.len(),
    ensures
        wf(with_occupancy(w, j, t)),
{
    let a = with_occupancy(w, j, t);
    assert forall|x: int| 0 <= x < a.junctions.len() implies junction_refs_wf(
        a,
        #[trigger] a.junctions[x],
    ) by {
        assert(junction_refs_wf(w, w.junctions[x]));
    }
    assert forall|k: int|
        0 <= k < a.trains.len() implies (#[trigger] a.trains[k] matches Some(tk) ==> train_wf(
        a,
        tk,
    )) by {
        if let Some(tk) = a.trains[k] {
            assert(train_wf(w, tk));
            lemma_train_wf_transfer(w, a, tk);
        }
    }
    lemma_wf_similar(w, a);
}

/// One stale-block step: a train idle in a station gives up the
/// block it still holds; a mismatched hand-off record is reported instead.
pub open spec fn release_step(w: WorldModel, i: int) -> WorldModel {
    match w.trains[i] {
        Some(t) => match t.blocking_signal {
            Some(bs) => {
                if t.in_station is Some && (bs as int) < w.junctions.len() && w.junctions[
                    bs as int].signal is Some {
                    let s = w.junctions[bs as int].signal.unwrap();
                    let cleared = WorldModel {
                        trains: w.trains.update(i, Some(TrainModel { blocking_signal: None, ..t })),
                        ..w
                    };
                    if s.occupied_by == Some(i as usize) {
                        with_occupancy(cleared, bs, None)
                    } else {
                        WorldModel {
                            errors: cleared.errors.push(
                                ProtocolError::BlockNotHeld { train: i as usize, junction: bs },
                            ),
                            ..cleared
                        }
                    }
                } else {
                    w
                }
            },
            None => w,
        },
        None => w,
    }
}

pub open spec fn release_upto(w: WorldModel, n: int) -> WorldModel
    decreases n,
{
    if n <= 0 {
        w
    } else {
        release_step(release_upto(w, n - 1), n - 1)
    }
}

/// Whether train slot `t` holds a train that sits in a station.
pub open spec fn train_parked(w: WorldModel, t: usize) -> bool {
    &&& (t as int) < w.trains.len()
    &&& w.trains[t as int] matches Some(tm)
    &&& tm.in_station is Some
}

/// One stale-hold sweep step: a reservation or an occupancy held by a train
/// that is now in a station is dropped from the signal.
pub open spec fn sweep_step(w: WorldModel, j: int) -> WorldModel {
    match w.junctions[j].signal {
        Some(s) => {
            let w1 = if s.reserved_for matches Some(t) && train_parked(w, t) {
                with_reservation(w, j as usize, None)
            } else {
                w
            };
            let s1 = w1.junctions[j].signal.unwrap();
            if s1.occupied_by matches Some(t) && train_parked(w1, t) {
                with_occupancy(w1, j as usize, None)
            } else {
                w1
            }
        },
        None => w,
    }
}

pub open spec fn sweep_upto(w: WorldModel, n: int) -> WorldModel
    decreases n,
{
    if n <= 0 {
        w
    } else {
        sweep_step(sweep_upto(w, n - 1), n - 1)
    }
}

/// The whole cleanup phase: stale blocks first, stale reservations second.
pub open spec fn clean_phase(w: WorldModel) -> WorldModel {
    let released = release_upto(w, w.trains.len() as int);
    sweep_upto(released, released.junctions.len() as int)
}

impl World {
    /// The cleanup phase: once a train has arrived in a station,
    /// any block it still occupies and any reservation it still holds are
    /// released, so stale holds never accumulate.
    pub fn clean_reservations(&mut self)
        requires
            old(self).wf(),
        ensures
            final(self).wf(),
            final(self)@ == clean_phase(old(self)@),
    {
        let ghost w0 = self@;
        let n = self.trains.len();
        let mut i: usize = 0;
        while i < n
            invariant
                wf(w0),
                i <= n,
                n == w0.trains.len(),
                wf(self@),
                self@ == release_upto(w0, i as int),
                self@.junctions.len() == w0.junctions.len(),
                self@.trains.len() == w0.trains.len(),
            decreases n - i,
        {
            let ghost before = self@;
            let mut held: Option<usize> = None;
            match &self.trains[i] {
                Some(t) => {
                    if t.in_station.is_some() {
                        held = t.blocking_signal;
                    }
                },
                None => {},
            }
            match held {
                Some(bs) => {
                    proof {
                        assert(before.trains[i as int] matches Some(tm) && train_wf(before, tm));
                    }
                    match &mut self.trains[i] {
                        Some(t) => {
                            t.blocking_signal = None;
                        },
                        None => {},
                    }
                    let ghost cleared = self@;
                    proof {
                        assert(cleared.trains =~= before.trains.update(
                            i as int,
                            self@.trains[i as int],
                        ));
                        if let Some(tm) = cleared.trains[i as int] {
                            assert(train_wf(cleared, tm)) by {
                                if let Some(r2) = tm.route {
                                    assert(route_wf(cleared, r2));
                                }
                            }
                        }
                        lemma_wf_update_train(before, cleared, i as int);
                    }
                    let mut own_block = false;
                    match &self.junctions[bs].signal {
                        Some(s) => {
                            match s.occupied_by {
                                Some(o) => {
                                    own_block = o == i;
                                },
                                None => {},
                            }
                        },
                        None => {},
                    }
                    if own_block {
                        match &mut self.junctions[bs].signal {
                            Some(s) => {
                                s.occupied_by = None;
                            },
                            None => {},
                        }
                        proof {
                            assert(self@ =~= with_occupancy(cleared, bs, None));
                            lemma_wf_with_occupancy(cleared, bs, None);
                        }
                    } else {
                        self.errors.push(ProtocolError::BlockNotHeld { train: i, junction: bs });
                        proof {
                            assert(self@ =~= WorldModel {
                                errors: cleared.errors.push(
                                    ProtocolError::BlockNotHeld { train: i, junction: bs },
                                ),
                                ..cleared
                            });
                        }
                    }
                    proof {
                        assert(self@ =~= release_step(before, i as int));
                    }
                },
                None => {
                    proof {
                        assert(self@ =~= release_step(before, i as int));
                    }
                },
            }
            i += 1;
        }
        let ghost w_released = self@;
        let m = self.junctions.len();
        let mut j: usize = 0;
        while j < m
            invariant
                wf(w_released),
                j <= m,
                m == w_released.junctions.len(),
                wf(self@),
                self@ == sweep_upto(w_released, j as int),
                self@.junctions.len() == w_released.junctions.len(),
                self@.trains.len() == w_released.trains.len(),
            decreases m - j,
        {
            let ghost before = self@;
            let mut holder: Option<usize> = None;
            let mut occupant: Option<usize> = None;
            let mut has_signal = false;
            match &self.junctions[j].signal {
                Some(s) => {
                    holder = s.reserved_for;
                    occupant = s.occupied_by;
                    has_signal = true;
                },
                None => {},
            }
            if has_signal {
                proof {
                    assert(junction_refs_wf(before, before.junctions[j as int]));
                }
                let mut stale_reservation = false;
                match holder {
                    Some(t) => {
                        match &self.trains[t] {
                            Some(tm) => {
                                stale_reservation = tm.in_station.is_some();
                            },
                            None => {},
                        }
                    },
                    None => {},
                }
                if stale_reservation {
                    match &mut self.junctions[j].signal {
                        Some(s) => {
                            s.reserved_for = None;
                        },
                        None => {},
                    }
                    proof {
                        assert(self@ =~= with_reservation(before, j, None));
                        lemma_wf_with_reservation(before, j, None);
                    }
                }
                let ghost w_mid = self@;
                let mut stale_occupancy = false;
                match occupant {
                    Some(t) => {
                        match &self.trains[t] {
                            Some(tm) => {
                                stale_occupancy = tm.in_station.is_some();
                            },
                            None => {},
                        }
                    },
                    None => {},
                }
                if stale_occupancy {
                    match &mut self.junctions[j].signal {
                        Some(s) => {
                            s.occupied_by = None;
                        },
                        None => {},
                    }
                    proof {
                        assert(self@ =~= with_occupancy(w_mid, j, None));
                        lemma_wf_with_occupancy(w_mid, j, None);
                    }
                }
                proof {
                    assert(self@ =~= sweep_step(before, j as int));
                }
            } else {
                proof {
                    assert(self@ =~= sweep_step(before, j as int));
                }
            }
            j += 1;
        }
    }
}


/// One full simulation tick: route planning, navigation, signal
/// dispatch, kinematics, integration, cleanup, then the commit of deferred
/// removals.
pub open spec fn tick_spec(w: WorldModel, dt: int) -> WorldModel {
    commit_spec(
        clean_phase(
            motion_phase(drive_phase(dispatch_phase(navigate_phase(route_phase(w)))), dt),
        ),
    )
}

impl World {
    /// Run one simulation tick over `dt` milliseconds, in the fixed phase
    /// order: route planner, navigator, signal dispatcher, kinematics
    /// controller and integrator, reservation cleaner, commit.
    pub fn tick(&mut self, dt: i64)
        requires
            old(self).wf(),
            dt >= 0,
        ensures
            final(self).wf(),
            final(self)@ == tick_spec(old(self)@, dt as int),
    {
        self.route_trains();
        self.navigate_trains();
        self.dispatch_signals();
        self.drive_trains();
        self.integrate_motion(dt);
        self.clean_reservations();
        self.commit();
    }

    /// The position of train `i`, while it exists.
    pub fn train_position(&self, i: usize) -> (r: Option<Position>)
        requires
            (i as int) < self@.trains.len(),
        ensures
            r == match self@.trains[i as int] {
                Some(t) => Some(t.position),
                None => None,
            },
    {
        match &self.trains[i] {
            Some(t) => Some(t.position),
            None => None,
        }
    }

    /// The position of junction `j`.
    pub fn junction_position(&self, j: usize) -> (r: Position)
        requires
            (j as int) < self@.junctions.len(),
        ensures
            r == self@.junctions[j as int].position,
    {
        self.junctions[j].position
    }

    /// The displayed state of the signal at junction `j`, if one is there.
    pub fn signal_state(&self, j: usize) -> (r: Option<crate::signals::SignalState>)
        requires
            (j as int) < self@.junctions.len(),
        ensures
            r == match self@.junctions[j as int].signal {
                Some(s) => Some(s.signal_state),
                None => None,
            },
    {
        match &self.junctions[j].signal {
            Some(s) => Some(s.signal_state),
            None => None,
        }
    }
}

/// The junction, among the first `n`, that a reported endpoint `p` snaps to:
/// the last one within the snap radius.
pub open spec fn snap_spec(g: Seq<JunctionModel>, p: Position, n: int) -> Option<usize>
    decreases n,
{
    if n <= 0 {
        None
    } else if crate::physics::distance_spec(g[n - 1].position, p) < SNAP_RADIUS as int {
        Some((n - 1) as usize)
    } else {
        snap_spec(g, p, n - 1)
    }
}

/// A snapped endpoint is one of the scanned junctions.
pub proof fn lemma_snap_in_range(g: Seq<JunctionModel>, p: Position, n: int)
    ensures
        snap_spec(g, p, n) matches Some(s) ==> (s as int) < n,
    decreases n,
{
    if n > 0 {
        lemma_snap_in_range(g, p, n - 1);
    }
}

/// The world after an editor reports a new rail segment: each
/// endpoint resolves to the nearest-by-scan-order existing junction within
/// the snap radius, or becomes a fresh waypoint junction; then the two are
/// connected. A segment whose endpoints resolve to the same junction adds no
/// edge.
pub open spec fn add_segment_spec(w: WorldModel, from: Position, to: Position) -> WorldModel {
    let n = w.junctions.len() as int;
    let start = snap_spec(w.junctions, from, n);
    let end = snap_spec(w.junctions, to, n);
    let fresh_start = JunctionModel {
        connections: Seq::empty(),
        is_terminal: false,
        position: from,
        signal: None,
    };
    let fresh_end = JunctionModel {
        connections: Seq::empty(),
        is_terminal: false,
        position: to,
        signal: None,
    };
    let w1 = match start {
        Some(_) => w,
        None => WorldModel { junctions: w.junctions.push(fresh_start), ..w },
    };
    let start_id: usize = match start {
        Some(s) => s,
        None => n as usize,
    };
    let w2 = match end {
        Some(_) => w1,
        None => WorldModel { junctions: w1.junctions.push(fresh_end), ..w1 },
    };
    let end_id: usize = match end {
        Some(e) => e,
        None => w1.junctions.len() as usize,
    };
    if start_id == end_id {
        w2
    } else {
        let ja = w2.junctions[start_id as int];
        let w3 = WorldModel {
            junctions: w2.junctions.update(
                start_id as int,
                JunctionModel { connections: ja.connections.push(end_id), ..ja },
            ),
            ..w2
        };
        let jb = w3.junctions[end_id as int];
        WorldModel {
            junctions: w3.junctions.update(
                end_id as int,
                JunctionModel { connections: jb.connections.push(start_id), ..jb },
            ),
            ..w3
        }
    }
}

impl World {
    /// Accept a "new rail segment" event from the rail editor:
    /// resolve both endpoints to junctions within the snap radius, creating
    /// waypoint junctions as needed, and connect them.
    pub fn add_rail_segment(&mut self, from: Position, to: Position)
        requires
            old(self).wf(),
        ensures
            final(self).wf(),
            final(self)@ == add_segment_spec(old(self)@, from, to),
    {
        let ghost w0 = self@;
        let n = self.junctions.len();
        let mut start: Option<usize> = None;
        let mut end: Option<usize> = None;
        let mut k: usize = 0;
        while k < n
            invariant
                k <= n,
                n == self@.junctions.len(),
                self@ == w0,
                start == snap_spec(w0.junctions, from, k as int),
                end == snap_spec(w0.junctions, to, k as int),
            decreases n - k,
        {
            let jp = self.junctions[k].position;
            if from.distance_length_to(&jp) < SNAP_RADIUS as u64 {
                start = Some(k);
            }
            if to.distance_length_to(&jp) < SNAP_RADIUS as u64 {
                end = Some(k);
            }
            k += 1;
        }
        let start_id = match start {
            Some(s) => s,
            None => self.add_junction(from, false, None),
        };
        let ghost w1 = self@;
        let end_id = match end {
            Some(e) => e,
            None => self.add_junction(to, false, None),
        };
        proof {
            if start is None {
                assert(w1.junctions =~= w0.junctions.push(
                    JunctionModel {
                        connections: Seq::empty(),
                        is_terminal: false,
                        position: from,
                        signal: None,
                    },
                ));
            }
            if end is None {
                assert(self@.junctions =~= w1.junctions.push(
                    JunctionModel {
                        connections: Seq::empty(),
                        is_terminal: false,
                        position: to,
                        signal: None,
                    },
                ));
            }
        }
        proof {
            lemma_snap_in_range(w0.junctions, from, n as int);
            lemma_snap_in_range(w0.junctions, to, n as int);
            assert((start_id as int) < self@.junctions.len());
            assert((end_id as int) < self@.junctions.len());
        }
        if start_id != end_id {
            self.connect(start_id, end_id);
        }
        proof {
            assert(self@ =~= add_segment_spec(w0, from, to));
        }
    }
}

/// A signal-free junction of the sample network.
pub open spec fn plain_junction(x: i64, y: i64, terminal: bool, conns: Seq<usize>) -> JunctionModel {
    JunctionModel {
        connections: conns,
        is_terminal: terminal,
        position: Position { x: x, y: y },
        signal: None,
    }
}

/// A signal-guarded waypoint of the sample network.
pub open spec fn signal_junction(x: i64, y: i64, conns: Seq<usize>) -> JunctionModel {
    JunctionModel {
        connections: conns,
        is_terminal: false,
        position: Position { x: x, y: y },
        signal: Some(
            JunctionSignal {
                signal_state: crate::signals::SignalState::Halt,
                reserved_for: None,
                occupied_by: None,
            },
        ),
    }
}

/// The sample network that `populate` builds, junction by junction: five
/// terminals first (the coal mine and four power plants, two of them
/// unconnected), then the forecourt junctions, the double-track main line
/// and the side line, with symmetric edges in creation order.
pub open spec fn sample_network() -> Seq<JunctionModel> {
    seq![
        plain_junction(60000, 65000, true, seq![5usize]),
        plain_junction(600000, 460000, true, seq![6usize]),
        plain_junction(600000, 130000, true, seq![7usize]),
        plain_junction(500000, 300000, true, Seq::empty()),
        plain_junction(100000, 430000, true, Seq::empty()),
        plain_junction(70000, 75000, false, seq![0usize, 8, 12]),
        plain_junction(590000, 450000, false, seq![1usize, 11, 15]),
        plain_junction(570000, 150000, false, seq![2usize, 19, 23]),
        plain_junction(70000, 85000, false, seq![5usize, 9]),
        signal_junction(140000, 160000, seq![8usize, 10, 16]),
        signal_junction(190000, 200000, seq![9usize, 11]),
        signal_junction(580000, 450000, seq![10usize, 6]),
        signal_junction(80000, 75000, seq![5usize, 13]),
        signal_junction(150000, 150000, seq![12usize, 14, 20]),
        signal_junction(200000, 190000, seq![13usize, 15]),
        plain_junction(590000, 440000, false, seq![14usize, 6]),
        signal_junction(170000, 220000, seq![9usize, 17]),
        plain_junction(220000, 240000, false, seq![16usize, 18]),
        plain_junction(330000, 240000, false, seq![17usize, 19]),
        signal_junction(520000, 180000, seq![18usize, 7]),
        signal_junction(220000, 170000, seq![13usize, 21]),
        plain_junction(270000, 190000, false, seq![20usize, 22]),
        plain_junction(330000, 190000, false, seq![21usize, 23]),
        plain_junction(500000, 160000, false, seq![22usize, 7]),
    ]
}

/// The sample network after the terminals, the forecourt junctions and the
/// double-track main line are built, before the side lines.
pub open spec fn sample_main_line() -> Seq<JunctionModel> {
    seq![
        plain_junction(60000, 65000, true, seq![5usize]),
        plain_junction(600000, 460000, true, seq![6usize]),
        plain_junction(600000, 130000, true, seq![7usize]),
        plain_junction(500000, 300000, true, Seq::empty()),
        plain_junction(100000, 430000, true, Seq::empty()),
        plain_junction(70000, 75000, false, seq![0usize, 8, 12]),
        plain_junction(590000, 450000, false, seq![1usize, 11, 15]),
        plain_junction(570000, 150000, false, seq![2usize]),
        plain_junction(70000, 85000, false, seq![5usize, 9]),
        signal_junction(140000, 160000, seq![8usize, 10]),
        signal_junction(190000, 200000, seq![9usize, 11]),
        signal_junction(580000, 450000, seq![10usize, 6]),
        signal_junction(80000, 75000, seq![5usize, 13]),
        signal_junction(150000, 150000, seq![12usize, 14]),
        signal_junction(200000, 190000, seq![13usize, 15]),
        plain_junction(590000, 440000, false, seq![14usize, 6]),
    ]
}

/// Terminals, forecourt junctions, and the double-track main line between
/// the coal mine and the bottom power plant.
#[verifier::rlimit(100)]
fn build_main_line(world: &mut World)
    requires
        old(world).wf(),
        old(world)@.junctions == Seq::<JunctionModel>::empty(),
    ensures
        final(world).wf(),
        final(world)@.junctions == sample_main_line(),
        final(world)@.trains == old(world)@.trains,
        final(world)@.doomed == old(world)@.doomed,
        final(world)@.errors == old(world)@.errors,
{
    let coal_mine = world.add_junction(Position::new(60000, 65000), true, None);
    let bottom_power_plant = world.add_junction(Position::new(600000, 460000), true, None);
    let top_power_plant = world.add_junction(Position::new(600000, 130000), true, None);
    let _unconnected_power_plant_1 = world.add_junction(Position::new(500000, 300000), true, None);
    let _unconnected_power_plant_2 = world.add_junction(Position::new(100000, 430000), true, None);

    // One junction in front of each connected terminal.
    let j_cm = world.add_junction(Position::new(70000, 75000), false, None);
    world.connect(j_cm, coal_mine);
    let j_bpp = world.add_junction(Position::new(590000, 450000), false, None);
    world.connect(j_bpp, bottom_power_plant);
    let j_tpp = world.add_junction(Position::new(570000, 150000), false, None);
    world.connect(j_tpp, top_power_plant);

    // Track from the coal mine to the bottom power plant.
    let j_1 = world.add_junction(Position::new(70000, 85000), false, None);
    world.connect(j_cm, j_1);
    let j_2 = world.add_junction(
        Position::new(140000, 160000),
        false,
        Some(JunctionSignal::new()),
    );
    world.connect(j_1, j_2);
    let j_3 = world.add_junction(
        Position::new(190000, 200000),
        false,
        Some(JunctionSignal::new()),
    );
    world.connect(j_2, j_3);
    let j_4 = world.add_junction(
        Position::new(580000, 450000),
        false,
        Some(JunctionSignal::new()),
    );
    world.connect(j_3, j_4);
    world.connect(j_4, j_bpp);

    // The way back, one track over.
    let j_5 = world.add_junction(
        Position::new(80000, 75000),
        false,
        Some(JunctionSignal::new()),
    );
    world.connect(j_cm, j_5);
    let j_6 = world.add_junction(
        Position::new(150000, 150000),
        false,
        Some(JunctionSignal::new()),
    );
    world.connect(j_5, j_6);
    let j_7 = world.add_junction(
        Position::new(200000, 190000),
        false,
        Some(JunctionSignal::new()),
    );
    world.connect(j_6, j_7);
    let j_8 = world.add_junction(Position::new(590000, 440000), false, None);
    world.connect(j_7, j_8);
    world.connect(j_8, j_bpp);
    proof {
        assert(world@.junctions =~~= sample_main_line());
    }
}

/// The side line toward the top power plant and its way back, splitting off
/// and merging into the main line.
#[verifier::rlimit(100)]
fn build_side_lines(world: &mut World)
    requires
        old(world).wf(),
        old(world)@.junctions == sample_main_line(),
    ensures
        final(world).wf(),
        final(world)@.junctions == sample_network(),
        final(world)@.trains == old(world)@.trains,
        final(world)@.doomed == old(world)@.doomed,
        final(world)@.errors == old(world)@.errors,
{
    let j_2: usize = 9;
    let j_6: usize = 13;
    let j_tpp: usize = 7;

    // Side track toward the top power plant, splitting off the main line.
    let j_21 = world.add_junction(
        Position::new(170000, 220000),
        false,
        Some(JunctionSignal::new()),
    );
    world.connect(j_2, j_21);
    let j_22 = world.add_junction(Position::new(220000, 240000), false, None);
    world.connect(j_21, j_22);
    let j_23 = world.add_junction(Position::new(330000, 240000), false, None);
    world.connect(j_22, j_23);
    let j_24 = world.add_junction(
        Position::new(520000, 180000),
        false,
        Some(JunctionSignal::new()),
    );
    world.connect(j_23, j_24);
    world.connect(j_24, j_tpp);

    // And the side track back, merging into the return line.
    let j_31 = world.add_junction(
        Position::new(220000, 170000),
        false,
        Some(JunctionSignal::new()),
    );
    world.connect(j_6, j_31);
    let j_32 = world.add_junction(Position::new(270000, 190000), false, None);
    world.connect(j_31, j_32);
    let j_33 = world.add_junction(Position::new(330000, 190000), false, None);
    world.connect(j_32, j_33);
    let j_34 = world.add_junction(Position::new(500000, 160000), false, None);
    world.connect(j_33, j_34);
    world.connect(j_34, j_tpp);
    proof {
        assert(world@.junctions =~~= sample_network());
    }
}

/// Build the sample world into a fresh one: a coal mine and four power
/// plants (two of them unconnected), linked by a double-track main line and
/// a signal-guarded side line — exactly the junctions of `sample_network`.
pub fn populate(world: &mut World)
    requires
        old(world).wf(),
        old(world)@.junctions == Seq::<JunctionModel>::empty(),
    ensures
        final(world).wf(),
        final(world)@.junctions == sample_network(),
        final(world)@.trains == old(world)@.trains,
        final(world)@.doomed == old(world)@.doomed,
        final(world)@.errors == old(world)@.errors,
{
    build_main_line(world);
    build_side_lines(world);
}


/// One routing step never touches the graph or the error log and keeps the
/// slot count; it can only push onto the doomed queue.
pub proof fn lemma_route_step_frame(w: WorldModel, i: int)
    requires
        0 <= i < w.trains.len(),
    ensures
        route_step(w, i).junctions == w.junctions,
        route_step(w, i).errors == w.errors,
        route_step(w, i).trains.len() == w.trains.len(),
        route_step(w, i).doomed == w.doomed || route_step(w, i).doomed == w.doomed.push(
            i as usize,
        ),
{
    match w.trains[i] {
        Some(t) => match (t.in_station, t.destination) {
            (Some(st), Some(d)) => {
                if (st as int) < w.junctions.len() {
                    match plan_result_spec(w.junctions, st, d) {
                        Some(_) => {},
                        None => {},
                    }
                }
            },
            _ => {},
        },
        None => {},
    }
}

/// The hand-off keeps the doomed queue, the slot count and the junction
/// count.
pub proof fn lemma_handoff_frame(w: WorldModel, i: int, hop: usize)
    requires
        0 <= i < w.trains.len(),
        (hop as int) < w.junctions.len(),
    ensures
        handoff_spec(w, i, hop).doomed == w.doomed,
        handoff_spec(w, i, hop).trains.len() == w.trains.len(),
        handoff_spec(w, i, hop).junctions.len() == w.junctions.len(),
{
    let t = w.trains[i].unwrap();
    let a = handoff_released(w, i);
    assert(a.doomed == w.doomed && a.trains.len() == w.trains.len() && a.junctions.len()
        == w.junctions.len()) by {
        match t.blocking_signal {
            Some(_) => {},
            None => {},
        }
    }
    let b = handoff_unreserved(w, i, hop);
    assert(b.doomed == a.doomed && b.trains.len() == a.trains.len() && b.junctions.len()
        == a.junctions.len());
    let c = handoff_occupied(w, i, hop);
    assert(c.doomed == b.doomed && c.trains.len() == b.trains.len() && c.junctions.len()
        == b.junctions.len()) by {
        match b.junctions[hop as int].signal.unwrap().occupied_by {
            Some(_) => {},
            None => {},
        }
    }
}

/// One navigator step keeps the doomed queue, the slot count and the
/// junction count.
pub proof fn lemma_navigate_step_frame(w: WorldModel, i: int)
    requires
        0 <= i < w.trains.len(),
    ensures
        navigate_step(w, i).doomed == w.doomed,
        navigate_step(w, i).trains.len() == w.trains.len(),
        navigate_step(w, i).junctions.len() == w.junctions.len(),
{
    match w.trains[i] {
        Some(t) => match t.route {
            Some(r) => {
                if r.hops.len() >= 1 && (r.hops[0] as int) < w.junctions.len() {
                    let hop = r.hops[0];
                    if crate::physics::distance_spec(t.position, w.junctions[hop as int].position)
                        < ARRIVAL_RADIUS as int {
                        let popped = RouteModel { hops: r.hops.drop_first(), dest: r.dest };
                        let w1 = WorldModel {
                            trains: w.trains.update(i, Some(TrainModel { route: Some(popped), ..t })),
                            ..w
                        };
                        if w.junctions[hop as int].signal is Some {
                            lemma_handoff_frame(w1, i, hop);
                        }
                    }
                }
            },
            None => {},
        },
        None => {},
    }
}

/// One reservation-granting step keeps the doomed queue, the slot count and
/// the junction count.
pub proof fn lemma_grant_step_frame(w: WorldModel, go: Seq<usize>, i: int)
    requires
        0 <= i < w.trains.len(),
    ensures
        grant_step(w, go, i).0.doomed == w.doomed,
        grant_step(w, go, i).0.trains.len() == w.trains.len(),
        grant_step(w, go, i).0.junctions.len() == w.junctions.len(),
{
    match w.trains[i] {
        Some(t) => match t.route {
            Some(r) => {
                let sigs = signal_hops(w.junctions, r.hops);
                lemma_signal_hops_elems(w.junctions, r.hops);
                if sigs.len() > 0 {
                    assert((sigs[0] as int) < w.junctions.len());
                    if sigs.len() > 1 {
                        assert((sigs[1] as int) < w.junctions.len());
                    }
                }
            },
            None => {},
        },
        None => {},
    }
}

/// One stale-block step keeps the doomed queue, the slot count and the
/// junction count.
pub proof fn lemma_release_step_frame(w: WorldModel, i: int)
    requires
        0 <= i < w.trains.len(),
    ensures
        release_step(w, i).doomed == w.doomed,
        release_step(w, i).trains.len() == w.trains.len(),
        release_step(w, i).junctions.len() == w.junctions.len(),
{
    match w.trains[i] {
        Some(t) => match t.blocking_signal {
            Some(_) => {},
            None => {},
        },
        None => {},
    }
}

/// The routing folds never touch the graph or the error log, never change
/// the number of train slots, only extend the doomed queue, and keep its
/// entries valid.
pub proof fn lemma_route_upto_frame(w: WorldModel, n: int)
    requires
        n <= w.trains.len(),
        forall|k: int| 0 <= k < w.doomed.len() ==> (#[trigger] w.doomed[k] as int) < w.trains.len(),
    ensures
        route_upto(w, n).junctions == w.junctions,
        route_upto(w, n).errors == w.errors,
        route_upto(w, n).trains.len() == w.trains.len(),
        route_upto(w, n).doomed.len() >= w.doomed.len(),
        forall|k: int|
            0 <= k < w.doomed.len() ==> #[trigger] route_upto(w, n).doomed[k] == w.doomed[k],
        forall|k: int|
            0 <= k < route_upto(w, n).doomed.len() ==> (#[trigger] route_upto(w, n).doomed[
                k] as int) < w.trains.len(),
        forall|v: usize| w.doomed.contains(v) ==> route_upto(w, n).doomed.contains(v),
    decreases n,
{
    if n > 0 {
        lemma_route_upto_frame(w, n - 1);
        let prev = route_upto(w, n - 1);
        let cur = route_upto(w, n);
        assert(cur == route_step(prev, n - 1));
        lemma_route_step_frame(prev, n - 1);
        assert(cur.doomed == prev.doomed || cur.doomed == prev.doomed.push((n - 1) as usize));
        assert forall|v: usize| w.doomed.contains(v) implies cur.doomed.contains(v) by {
            if w.doomed.contains(v) {
                assert(prev.doomed.contains(v));
                let k = choose|k: int| 0 <= k < prev.doomed.len() && prev.doomed[k] == v;
                assert(cur.doomed[k] == v);
            }
        }
    }
}

/// Train slots the routing fold has not yet reached are untouched.
pub proof fn lemma_route_upto_keeps_train(w: WorldModel, n: int, i: int)
    requires
        0 <= n <= i < w.trains.len(),
    ensures
        route_upto(w, n).trains.len() == w.trains.len(),
        route_upto(w, n).trains[i] == w.trains[i],
    decreases n,
{
    if n > 0 {
        lemma_route_upto_keeps_train(w, n - 1, i);
        lemma_route_step_frame(route_upto(w, n - 1), n - 1);
    }
}

/// A train that waits in a station for an unreachable destination is queued
/// for removal by the routing phase.
pub proof fn lemma_route_phase_dooms(w: WorldModel, i: usize)
    requires
        wf(w),
        (i as int) < w.trains.len(),
        w.trains[i as int] matches Some(t) && t.in_station matches Some(st)
            && t.destination matches Some(d) && plan_result_spec(w.junctions, st, d) is None,
    ensures
        route_phase(w).doomed.contains(i),
{
    let t = w.trains[i as int].unwrap();
    let st = t.in_station.unwrap();
    let d = t.destination.unwrap();
    lemma_route_upto_keeps_train(w, i as int, i as int);
    let wi = route_upto(w, i as int);
    lemma_route_upto_frame(w, i as int);
    assert(train_wf(w, t));
    assert(wi.trains[i as int] == w.trains[i as int]);
    assert(wi.junctions == w.junctions);
    let wnext = route_upto(w, i + 1);
    assert(wnext == route_step(wi, i as int));
    assert(wnext.doomed == wi.doomed.push(i));
    assert(wnext.doomed.contains(i)) by {
        assert(wnext.doomed[wnext.doomed.len() - 1] == i);
    }
    lemma_route_contains_after(w, i + 1, w.trains.len() as int, i);
}

/// The routing fold keeps the number of train slots.
pub proof fn lemma_route_upto_len(w: WorldModel, n: int)
    requires
        n <= w.trains.len(),
    ensures
        route_upto(w, n).trains.len() == w.trains.len(),
    decreases n,
{
    if n > 0 {
        lemma_route_upto_len(w, n - 1);
        lemma_route_step_frame(route_upto(w, n - 1), n - 1);
    }
}

/// Once queued for removal, a train stays queued through the rest of the
/// routing fold.
pub proof fn lemma_route_contains_after(w: WorldModel, n0: int, n1: int, v: usize)
    requires
        0 <= n0 <= n1 <= w.trains.len(),
        route_upto(w, n0).doomed.contains(v),
    ensures
        route_upto(w, n1).doomed.contains(v),
    decreases n1 - n0,
{
    if n0 < n1 {
        let prev = route_upto(w, n1 - 1);
        let cur = route_upto(w, n1);
        lemma_route_contains_after(w, n0, n1 - 1, v);
        assert(cur == route_step(prev, n1 - 1));
        lemma_route_upto_len(w, n1 - 1);
        lemma_route_step_frame(prev, n1 - 1);
        assert(cur.doomed == prev.doomed || cur.doomed == prev.doomed.push((n1 - 1) as usize));
        let k = choose|k: int| 0 <= k < prev.doomed.len() && prev.doomed[k] == v;
        assert(cur.doomed[k] == v);
    }
}

/// The navigator folds never touch the doomed queue or the slot count.
pub proof fn lemma_navigate_upto_frame(w: WorldModel, n: int)
    requires
        n <= w.trains.len(),
    ensures
        navigate_upto(w, n).doomed == w.doomed,
        navigate_upto(w, n).trains.len() == w.trains.len(),
        navigate_upto(w, n).junctions.len() == w.junctions.len(),
    decreases n,
{
    if n > 0 {
        lemma_navigate_upto_frame(w, n - 1);
        lemma_navigate_step_frame(navigate_upto(w, n - 1), n - 1);
    }
}

/// The dispatcher folds never touch the doomed queue or the slot count.
pub proof fn lemma_dispatch_frames(w: WorldModel, n: int)
    requires
        n <= w.trains.len(),
    ensures
        grant_upto(w, n).0.doomed == w.doomed,
        grant_upto(w, n).0.trains.len() == w.trains.len(),
        grant_upto(w, n).0.junctions.len() == w.junctions.len(),
    decreases n,
{
    if n > 0 {
        lemma_dispatch_frames(w, n - 1);
        let prev = grant_upto(w, n - 1);
        lemma_grant_step_frame(prev.0, prev.1, n - 1);
    }
}

/// The state-derivation folds never touch the doomed queue or the slot
/// count.
pub proof fn lemma_derive_upto_frame(w: WorldModel, go: Seq<usize>, n: int)
    requires
        n <= w.junctions.len(),
    ensures
        derive_upto(w, go, n).doomed == w.doomed,
        derive_upto(w, go, n).trains.len() == w.trains.len(),
        derive_upto(w, go, n).junctions.len() == w.junctions.len(),
    decreases n,
{
    if n > 0 {
        lemma_derive_upto_frame(w, go, n - 1);
        let prev = derive_upto(w, go, n - 1);
        assert(derive_step(prev, go, n - 1).doomed == prev.doomed && derive_step(
            prev,
            go,
            n - 1,
        ).trains.len() == prev.trains.len() && derive_step(prev, go, n - 1).junctions.len()
            == prev.junctions.len()) by {
            match prev.junctions[n - 1].signal {
                Some(_) => {},
                None => {},
            }
        }
    }
}

/// The kinematics and integration folds never touch the doomed queue or the
/// slot count.
pub proof fn lemma_kinematics_frames(w: WorldModel, n: int, dt: int)
    requires
        n <= w.trains.len(),
    ensures
        road_upto(w, n).doomed == w.doomed,
        road_upto(w, n).trains.len() == w.trains.len(),
        road_upto(w, n).junctions == w.junctions,
        station_upto(w, n).doomed == w.doomed,
        station_upto(w, n).trains.len() == w.trains.len(),
        station_upto(w, n).junctions == w.junctions,
        motion_upto(w, n, dt).doomed == w.doomed,
        motion_upto(w, n, dt).trains.len() == w.trains.len(),
        motion_upto(w, n, dt).junctions == w.junctions,
    decreases n,
{
    if n > 0 {
        lemma_kinematics_frames(w, n - 1, dt);
        let p1 = road_upto(w, n - 1);
        assert(road_step(p1, n - 1).doomed == p1.doomed && road_step(p1, n - 1).trains.len()
            == p1.trains.len() && road_step(p1, n - 1).junctions == p1.junctions) by {
            match p1.trains[n - 1] {
                Some(t) => {
                    match t.route {
                        Some(_) => {},
                        None => {},
                    }
                },
                None => {},
            }
        }
        let p2 = station_upto(w, n - 1);
        assert(station_step(p2, n - 1).doomed == p2.doomed && station_step(p2, n - 1).trains.len()
            == p2.trains.len() && station_step(p2, n - 1).junctions == p2.junctions) by {
            match p2.trains[n - 1] {
                Some(t) => {
                    match t.in_station {
                        Some(_) => {},
                        None => {},
                    }
                },
                None => {},
            }
        }
        let p3 = motion_upto(w, n - 1, dt);
        assert(motion_step(p3, n - 1, dt).doomed == p3.doomed && motion_step(
            p3,
            n - 1,
            dt,
        ).trains.len() == p3.trains.len() && motion_step(p3, n - 1, dt).junctions
            == p3.junctions) by {
            match p3.trains[n - 1] {
                Some(_) => {},
                None => {},
            }
        }
    }
}

/// The stale-block folds never touch the doomed queue, the slot count or
/// the junction count.
pub proof fn lemma_release_upto_frame(w: WorldModel, n: int)
    requires
        n <= w.trains.len(),
    ensures
        release_upto(w, n).doomed == w.doomed,
        release_upto(w, n).trains.len() == w.trains.len(),
        release_upto(w, n).junctions.len() == w.junctions.len(),
    decreases n,
{
    if n > 0 {
        lemma_release_upto_frame(w, n - 1);
        lemma_release_step_frame(release_upto(w, n - 1), n - 1);
    }
}

/// The stale-reservation folds never touch the doomed queue, the slot count
/// or the junction count.
pub proof fn lemma_sweep_upto_frame(w: WorldModel, n: int)
    requires
        n <= w.junctions.len(),
    ensures
        sweep_upto(w, n).doomed == w.doomed,
        sweep_upto(w, n).trains.len() == w.trains.len(),
        sweep_upto(w, n).junctions.len() == w.junctions.len(),
    decreases n,
{
    if n > 0 {
        lemma_sweep_upto_frame(w, n - 1);
        let p2 = sweep_upto(w, n - 1);
        assert(sweep_step(p2, n - 1).doomed == p2.doomed && sweep_step(p2, n - 1).trains.len()
            == p2.trains.len() && sweep_step(p2, n - 1).junctions.len() == p2.junctions.len()) by {
            match p2.junctions[n - 1].signal {
                Some(sg) => {
                    match sg.reserved_for {
                        Some(_) => {},
                        None => {},
                    }
                },
                None => {},
            }
        }
    }
}

/// A slot queued for removal is empty after the commit.
pub proof fn lemma_commit_removes(w: WorldModel, v: usize)
    requires
        w.doomed.contains(v),
        forall|k: int| 0 <= k < w.doomed.len() ==> (#[trigger] w.doomed[k] as int) < w.trains.len(),
    ensures
        commit_spec(w).trains[v as int] is None,
{
    let k = choose|k: int| 0 <= k < w.doomed.len() && w.doomed[k] == v;
    lemma_commit_upto_doomed_gone(w, w.doomed.len() as int, k);
}

/// Doomed-train cleanup: if route planning fails for a train this tick
/// (it waits in a station for a destination that `plan_route` cannot
/// reach), the train's slot no longer holds a train once the tick's commit
/// phase has run.
pub proof fn lemma_doomed_train_removed(w: WorldModel, dt: int, i: usize)
    requires
        wf(w),
        (i as int) < w.trains.len(),
        w.trains[i as int] matches Some(t) && t.in_station matches Some(st)
            && t.destination matches Some(d) && plan_result_spec(w.junctions, st, d) is None,
    ensures
        tick_spec(w, dt).trains[i as int] is None,
{
    lemma_route_phase_dooms(w, i);
    lemma_route_upto_frame(w, w.trains.len() as int);
    let w1 = route_phase(w);
    let w2 = navigate_phase(w1);
    lemma_navigate_upto_frame(w1, w1.trains.len() as int);
    let granted = grant_upto(w2, w2.trains.len() as int);
    lemma_dispatch_frames(w2, w2.trains.len() as int);
    let w3 = dispatch_phase(w2);
    lemma_derive_upto_frame(granted.0, granted.1, granted.0.junctions.len() as int);
    let w4 = drive_phase(w3);
    lemma_kinematics_frames(w3, w3.trains.len() as int, dt);
    lemma_kinematics_frames(road_upto(w3, w3.trains.len() as int), w3.trains.len() as int, dt);
    let w5 = motion_phase(w4, dt);
    lemma_kinematics_frames(w4, w4.trains.len() as int, dt);
    let w6 = clean_phase(w5);
    lemma_release_upto_frame(w5, w5.trains.len() as int);
    lemma_sweep_upto_frame(
        release_upto(w5, w5.trains.len() as int),
        release_upto(w5, w5.trains.len() as int).junctions.len() as int,
    );
    assert(w6.doomed == w1.doomed);
    assert(w6.trains.len() == w.trains.len());
    assert(w6.doomed.contains(i));
    assert forall|k: int|
        0 <= k < w6.doomed.len() implies (#[trigger] w6.doomed[k] as int) < w6.trains.len() by {
        assert(w6.doomed[k] == w1.doomed[k]);
        assert((w1.doomed[k] as int) < w.trains.len());
    }
    lemma_commit_removes(w6, i);
    assert(tick_spec(w, dt) == commit_spec(w6));
}

/// What a go-eligible entry promises: the signal is reserved for a train
/// whose route's first two signal-bearing hops are this signal and a second
/// one that is also reserved for that same train.
pub open spec fn go_entry_ok(w: WorldModel, s: usize) -> bool {
    exists|t: int|
        #![trigger w.trains[t]]
        {
            &&& 0 <= t < w.trains.len()
            &&& w.trains[t] matches Some(tm)
            &&& tm.route matches Some(r)
            &&& signal_hops(w.junctions, r.hops).len() >= 2
            &&& signal_hops(w.junctions, r.hops)[0] == s
            &&& (s as int) < w.junctions.len()
            &&& (w.junctions[s as int].signal matches Some(sg) && sg.reserved_for == Some(
                t as usize,
            ))
            &&& ((signal_hops(w.junctions, r.hops)[1] as int) < w.junctions.len())
            &&& (w.junctions[signal_hops(w.junctions, r.hops)[1] as int].signal matches Some(sg2)
                && sg2.reserved_for == Some(t as usize))
        }
}

pub open spec fn go_ok(w: WorldModel, go: Seq<usize>) -> bool {
    forall|x: int| 0 <= x < go.len() ==> go_entry_ok(w, #[trigger] go[x])
}

/// Signal-bearing hops depend only on the junction count and on which
/// junctions carry signals.
pub proof fn lemma_signal_hops_same(g1: Seq<JunctionModel>, g2: Seq<JunctionModel>, hops: Seq<usize>)
    requires
        g1.len() == g2.len(),
        forall|j: int| 0 <= j < g1.len() ==> ((#[trigger] g2[j]).signal is Some <==> g1[j].signal
            is Some),
    ensures
        signal_hops(g2, hops) == signal_hops(g1, hops),
    decreases hops.len(),
{
    if hops.len() > 0 {
        lemma_signal_hops_same(g1, g2, hops.drop_first());
    }
}

/// One granting step only fills empty reservation slots, never changes which
/// junctions carry signals, the edges, the positions, the occupancies, or
/// any train's route.
pub proof fn lemma_grant_step_preserves(w: WorldModel, go: Seq<usize>, i: int)
    requires
        0 <= i < w.trains.len(),
    ensures
        ({
            let a = grant_step(w, go, i).0;
            &&& a.junctions.len() == w.junctions.len()
            &&& a.trains.len() == w.trains.len()
            &&& forall|j: int|
                0 <= j < w.junctions.len() ==> ((#[trigger] a.junctions[j]).signal is Some
                    <==> w.junctions[j].signal is Some)
            &&& forall|j: int|
                0 <= j < w.junctions.len() ==> ((#[trigger] a.junctions[j]).signal matches Some(sg)
                    ==> {
                    let olds = w.junctions[j].signal.unwrap();
                    &&& sg.occupied_by == olds.occupied_by
                    &&& sg.signal_state == olds.signal_state
                    &&& (sg.reserved_for == olds.reserved_for || (olds.reserved_for is None
                        && sg.reserved_for == Some(i as usize)))
                })
            &&& forall|k: int|
                0 <= k < w.trains.len() ==> ((#[trigger] a.trains[k] is Some) <==> w.trains[k]
                    is Some)
            &&& forall|k: int|
                0 <= k < w.trains.len() ==> (#[trigger] a.trains[k] matches Some(tk)
                    ==> tk.route == w.trains[k].unwrap().route)
            &&& forall|j: int|
                0 <= j < w.junctions.len() ==> ((#[trigger] a.junctions[j]).signal matches Some(sg)
                    && sg.reserved_for != w.junctions[j].signal.unwrap().reserved_for
                    ==> reserved_target(w, i, j) && (w.junctions[j].signal.unwrap().occupied_by
                        is None || w.junctions[j].signal.unwrap().occupied_by == Some(i as usize)))
        }),
{
    match w.trains[i] {
        Some(t) => match t.route {
            Some(r) => {
                let sigs = signal_hops(w.junctions, r.hops);
                lemma_signal_hops_elems(w.junctions, r.hops);
                if sigs.len() > 0 {
                    assert((sigs[0] as int) < w.junctions.len());
                    if sigs.len() > 1 {
                        assert((sigs[1] as int) < w.junctions.len());
                    }
                }
            },
            None => {},
        },
        None => {},
    }
}

/// Whether `j` is one of the first two signal-bearing hops of train `i`'s
/// route: the only junctions whose reservation one granting step may touch.
pub open spec fn reserved_target(w: WorldModel, i: int, j: int) -> bool {
    w.trains[i] matches Some(t) && t.route matches Some(r) && {
        let sigs = signal_hops(w.junctions, r.hops);
        ||| (sigs.len() >= 1 && j == sigs[0] as int)
        ||| (sigs.len() >= 2 && j == sigs[1] as int)
    }
}

/// Through the granting fold, every recorded go-eligible signal keeps its
/// two-ahead witness.
pub proof fn lemma_grant_upto_go_ok(w: WorldModel, n: int)
    requires
        n <= w.trains.len(),
    ensures
        go_ok(grant_upto(w, n).0, grant_upto(w, n).1),
        grant_upto(w, n).0.junctions.len() == w.junctions.len(),
        grant_upto(w, n).0.trains.len() == w.trains.len(),
        forall|j: int|
            0 <= j < w.junctions.len() ==> ((#[trigger] grant_upto(w, n).0.junctions[j]).signal
                is Some <==> w.junctions[j].signal is Some),
    decreases n,
{
    if n > 0 {
        lemma_grant_upto_go_ok(w, n - 1);
        let prev = grant_upto(w, n - 1);
        let cur = grant_upto(w, n);
        let i = n - 1;
        lemma_grant_step_preserves(prev.0, prev.1, i);
        // Previously recorded entries keep their witnesses.
        assert forall|x: int| 0 <= x < cur.1.len() implies go_entry_ok(cur.0, #[trigger] cur.1[x]) by {
            if x < prev.1.len() {
                assert(cur.1[x] == prev.1[x]);
                assert(go_entry_ok(prev.0, prev.1[x]));
                let t = choose|t: int|
                    #![trigger prev.0.trains[t]]
                    {
                        &&& 0 <= t < prev.0.trains.len()
                        &&& prev.0.trains[t] matches Some(tm)
                        &&& tm.route matches Some(r)
                        &&& signal_hops(prev.0.junctions, r.hops).len() >= 2
                        &&& signal_hops(prev.0.junctions, r.hops)[0] == prev.1[x]
                        &&& (prev.1[x] as int) < prev.0.junctions.len()
                        &&& (prev.0.junctions[prev.1[x] as int].signal matches Some(sg)
                            && sg.reserved_for == Some(t as usize))
                        &&& ((signal_hops(prev.0.junctions, r.hops)[1] as int)
                            < prev.0.junctions.len())
                        &&& (prev.0.junctions[signal_hops(prev.0.junctions, r.hops)[1] as int].signal
                            matches Some(sg2) && sg2.reserved_for == Some(t as usize))
                    };
                let r = prev.0.trains[t].unwrap().route.unwrap();
                lemma_signal_hops_same(prev.0.junctions, cur.0.junctions, r.hops);
                assert(cur.0.trains[t] is Some);
                assert(cur.0.trains[t].unwrap().route == Some(r));
                assert(go_entry_ok(cur.0, cur.1[x]));
            } else {
                // The entry recorded by this very step.
                assert(cur.1 == prev.1.push(cur.1[x]));
                lemma_grant_new_entry_ok(prev.0, prev.1, i);
            }
        }
    }
}

/// When a granting step records a new go-eligible signal, the two-ahead
/// witness holds of the step's result.
pub proof fn lemma_grant_new_entry_ok(w: WorldModel, go: Seq<usize>, i: int)
    requires
        0 <= i < w.trains.len(),
        grant_step(w, go, i).1.len() == go.len() + 1,
    ensures
        go_entry_ok(grant_step(w, go, i).0, grant_step(w, go, i).1[go.len() as int]),
{
    let a = grant_step(w, go, i).0;
    let entry = grant_step(w, go, i).1[go.len() as int];
    match w.trains[i] {
        Some(t) => match t.route {
            Some(r) => {
                let sigs = signal_hops(w.junctions, r.hops);
                lemma_signal_hops_elems(w.junctions, r.hops);
                lemma_grant_step_preserves(w, go, i);
                assert(sigs.len() >= 2);
                assert(entry == sigs[0]);
                lemma_signal_hops_same(w.junctions, a.junctions, r.hops);
                assert(a.trains[i] is Some && a.trains[i].unwrap().route == Some(r));
                assert(a.junctions[sigs[0] as int].signal.unwrap().reserved_for == Some(
                    i as usize,
                ));
                assert(a.junctions[sigs[1] as int].signal.unwrap().reserved_for == Some(
                    i as usize,
                ));
                assert(go_entry_ok(a, entry));
            },
            None => {},
        },
        None => {},
    }
}

/// The state-derivation fold changes nothing but displayed states.
pub proof fn lemma_derive_upto_structure(w: WorldModel, go: Seq<usize>, n: int)
    requires
        n <= w.junctions.len(),
        w.junctions.len() <= usize::MAX,
    ensures
        derive_upto(w, go, n).junctions.len() == w.junctions.len(),
        derive_upto(w, go, n).trains == w.trains,
        forall|j: int|
            0 <= j < w.junctions.len() ==> ((#[trigger] derive_upto(w, go, n).junctions[j]).signal
                is Some <==> w.junctions[j].signal is Some),
        forall|j: int|
            0 <= j < w.junctions.len() ==> ((#[trigger] derive_upto(w, go, n).junctions[j]).signal
                matches Some(sg) ==> {
                let olds = w.junctions[j].signal.unwrap();
                sg.reserved_for == olds.reserved_for && sg.occupied_by == olds.occupied_by
            }),
    decreases n,
{
    if n > 0 {
        lemma_derive_upto_structure(w, go, n - 1);
        let prev = derive_upto(w, go, n - 1);
        let cur = derive_upto(w, go, n);
        match prev.junctions[n - 1].signal {
            Some(_) => {
                assert(cur.junctions.len() == prev.junctions.len());
                assert(forall|j: int|
                    0 <= j < w.junctions.len() && j != n - 1 ==> #[trigger] cur.junctions[j]
                        == prev.junctions[j]);
                assert(cur.junctions[n - 1].signal is Some);
                assert(cur.junctions[n - 1].signal.unwrap().reserved_for == prev.junctions[
                    n - 1].signal.unwrap().reserved_for);
                assert(cur.junctions[n - 1].signal.unwrap().occupied_by == prev.junctions[
                    n - 1].signal.unwrap().occupied_by);
            },
            None => {
                assert(cur == prev);
            },
        }
    }
}

/// After the state-derivation fold, a signal shows Go only if it was
/// unoccupied, reserved, and recorded as go-eligible.
pub proof fn lemma_derive_upto_go_states(w: WorldModel, go: Seq<usize>, n: int, j: int)
    requires
        0 <= j < n <= w.junctions.len(),
        w.junctions.len() <= usize::MAX,
    ensures
        derive_upto(w, go, n).junctions[j].signal matches Some(s) && s.signal_state
            == crate::signals::SignalState::Go ==> {
            let olds = w.junctions[j].signal.unwrap();
            &&& w.junctions[j].signal is Some
            &&& olds.occupied_by is None
            &&& olds.reserved_for is Some
            &&& go.contains(j as usize)
        },
    decreases n,
{
    lemma_derive_upto_structure(w, go, n - 1);
    let prev = derive_upto(w, go, n - 1);
    if j == n - 1 {
        match prev.junctions[j].signal {
            Some(s) => {
                assert(prev.junctions[j].signal.unwrap().reserved_for == w.junctions[
                    j].signal.unwrap().reserved_for);
            },
            None => {},
        }
    } else {
        lemma_derive_upto_go_states(w, go, n - 1, j);
        match prev.junctions[n - 1].signal {
            Some(_) => {
                assert(derive_upto(w, go, n).junctions[j] == prev.junctions[j]);
            },
            None => {},
        }
    }
}

/// Two-ahead guarantee: after the dispatcher phase, a signal shows Go only
/// if the next signal-bearing hop on the reserving train's route is also
/// reserved for that same train (`go_entry_ok` spells the witness out).
pub proof fn lemma_two_ahead_guarantee(w: WorldModel, j: int)
    requires
        wf(w),
        w.junctions.len() <= usize::MAX,
        0 <= j < dispatch_phase(w).junctions.len(),
        dispatch_phase(w).junctions[j].signal matches Some(s) && s.signal_state
            == crate::signals::SignalState::Go,
    ensures
        go_entry_ok(dispatch_phase(w), j as usize),
{
    let granted = grant_upto(w, w.trains.len() as int);
    let a = dispatch_phase(w);
    lemma_grant_upto_go_ok(w, w.trains.len() as int);
    lemma_dispatch_frames(w, w.trains.len() as int);
    lemma_derive_upto_structure(granted.0, granted.1, granted.0.junctions.len() as int);
    lemma_derive_upto_go_states(granted.0, granted.1, granted.0.junctions.len() as int, j);
    assert(go_ok(granted.0, granted.1));
    assert(granted.1.contains(j as usize));
    let x = choose|x: int| 0 <= x < granted.1.len() && granted.1[x] == j as usize;
    assert(go_entry_ok(granted.0, j as usize));
    let t = choose|t: int|
        #![trigger granted.0.trains[t]]
        {
            &&& 0 <= t < granted.0.trains.len()
            &&& granted.0.trains[t] matches Some(tm)
            &&& tm.route matches Some(r)
            &&& signal_hops(granted.0.junctions, r.hops).len() >= 2
            &&& signal_hops(granted.0.junctions, r.hops)[0] == j as usize
            &&& (j as int) < granted.0.junctions.len()
            &&& (granted.0.junctions[j].signal matches Some(sg) && sg.reserved_for == Some(
                t as usize,
            ))
            &&& ((signal_hops(granted.0.junctions, r.hops)[1] as int)
                < granted.0.junctions.len())
            &&& (granted.0.junctions[signal_hops(granted.0.junctions, r.hops)[1] as int].signal
                matches Some(sg2) && sg2.reserved_for == Some(t as usize))
        };
    let r = granted.0.trains[t].unwrap().route.unwrap();
    lemma_signal_hops_same(granted.0.junctions, a.junctions, r.hops);
    assert(a.trains == granted.0.trains);
    assert(go_entry_ok(a, j as usize));
}



/// Clearing or self-consistently setting a reservation keeps exclusivity.
pub proof fn lemma_exclusive_with_reservation(w: WorldModel, j: usize, t: Option<usize>)
    requires
        signals_exclusive(w),
        (j as int) < w.junctions.len(),
        w.junctions[j as int].signal is Some,
        t matches Some(i) ==> w.junctions[j as int].signal.unwrap().occupied_by is None
            || w.junctions[j as int].signal.unwrap().occupied_by == Some(i),
    ensures
        signals_exclusive(with_reservation(w, j, t)),
{
    let a = with_reservation(w, j, t);
    assert forall|x: int|
        0 <= x < a.junctions.len() implies ((#[trigger] a.junctions[x]).signal matches Some(sg)
        ==> signal_exclusive(sg)) by {
        if x != j as int {
            assert(a.junctions[x] == w.junctions[x]);
            assert(w.junctions[x].signal matches Some(s2) ==> signal_exclusive(s2));
        } else {
            assert(a.junctions[x].signal == Some(JunctionSignal { reserved_for: t, ..w.junctions[j as int].signal.unwrap() }));
            assert(a.junctions[x].signal matches Some(s3) ==> signal_exclusive(s3)) by {
                match t {
                    Some(ti) => {
                        assert(w.junctions[j as int].signal.unwrap().occupied_by is None
                            || w.junctions[j as int].signal.unwrap().occupied_by == Some(ti));
                    },
                    None => {},
                }
            }
        }
    }
}

/// Clearing or self-consistently setting an occupancy keeps exclusivity.
pub proof fn lemma_exclusive_with_occupancy(w: WorldModel, j: usize, t: Option<usize>)
    requires
        signals_exclusive(w),
        (j as int) < w.junctions.len(),
        w.junctions[j as int].signal is Some,
        t matches Some(i) ==> w.junctions[j as int].signal.unwrap().reserved_for is None
            || w.junctions[j as int].signal.unwrap().reserved_for == Some(i),
    ensures
        signals_exclusive(with_occupancy(w, j, t)),
{
    let a = with_occupancy(w, j, t);
    assert forall|x: int|
        0 <= x < a.junctions.len() implies ((#[trigger] a.junctions[x]).signal matches Some(sg)
        ==> signal_exclusive(sg)) by {
        if x != j as int {
            assert(a.junctions[x] == w.junctions[x]);
            assert(w.junctions[x].signal matches Some(s2) ==> signal_exclusive(s2));
        } else {
            assert(a.junctions[x].signal == Some(JunctionSignal { occupied_by: t, ..w.junctions[j as int].signal.unwrap() }));
            assert(a.junctions[x].signal matches Some(s3) ==> signal_exclusive(s3)) by {
                match t {
                    Some(_) => {},
                    None => {},
                }
            }
        }
    }
}

/// One stale-block step keeps the world well-formed.
pub proof fn lemma_release_step_wf(w: WorldModel, i: int)
    requires
        wf(w),
        0 <= i < w.trains.len(),
    ensures
        wf(release_step(w, i)),
{
    match w.trains[i] {
        Some(t) => match t.blocking_signal {
            Some(bs) => {
                if t.in_station is Some && (bs as int) < w.junctions.len() && w.junctions[
                    bs as int].signal is Some {
                    assert(train_wf(w, t));
                    let cleared = WorldModel {
                        trains: w.trains.update(i, Some(TrainModel { blocking_signal: None, ..t })),
                        ..w
                    };
                    assert(cleared.trains[i] matches Some(t2) ==> train_wf(cleared, t2)) by {
                        if let Some(r) = t.route {
                            assert(route_wf(w, r));
                        }
                    }
                    lemma_wf_update_train(w, cleared, i);
                    let sct = w.junctions[bs as int].signal.unwrap();
                    if sct.occupied_by == Some(i as usize) {
                        lemma_wf_with_occupancy(cleared, bs, None);
                    } else {
                        let errored = WorldModel {
                            errors: cleared.errors.push(
                                ProtocolError::BlockNotHeld { train: i as usize, junction: bs },
                            ),
                            ..cleared
                        };
                        assert(wf(errored)) by {
                            assert forall|x: int|
                                0 <= x < errored.junctions.len() implies junction_refs_wf(
                                errored,
                                #[trigger] errored.junctions[x],
                            ) by {
                                assert(junction_refs_wf(cleared, cleared.junctions[x]));
                            }
                            assert forall|k: int|
                                0 <= k < errored.trains.len() implies (
                            #[trigger] errored.trains[k] matches Some(tk) ==> train_wf(
                                errored,
                                tk,
                            )) by {
                                if let Some(tk) = errored.trains[k] {
                                    assert(train_wf(cleared, tk));
                                    lemma_train_wf_transfer(cleared, errored, tk);
                                }
                            }
                        }
                    }
                }
            },
            None => {},
        },
        None => {},
    }
}

/// The stale-block fold clears the hand-off record of every in-station train
/// it has reached, and never touches a train's station marker or another
/// train's slot.
pub proof fn lemma_release_upto_records(w: WorldModel, n: int)
    requires
        wf(w),
        n <= w.trains.len(),
    ensures
        wf(release_upto(w, n)),
        forall|i: int|
            0 <= i < w.trains.len() ==> ((#[trigger] release_upto(w, n).trains[i]) is Some
                <==> w.trains[i] is Some),
        forall|i: int|
            0 <= i < w.trains.len() ==> ((#[trigger] release_upto(w, n).trains[i]) matches Some(t)
                ==> t.in_station == w.trains[i].unwrap().in_station),
        forall|i: int|
            0 <= i < n ==> ((#[trigger] release_upto(w, n).trains[i]) matches Some(t)
                ==> (t.in_station is Some ==> t.blocking_signal is None)),
    decreases n,
{
    lemma_release_upto_frame(w, n);
    if n > 0 {
        lemma_release_upto_records(w, n - 1);
        lemma_release_upto_frame(w, n - 1);
        let prev = release_upto(w, n - 1);
        let cur = release_upto(w, n);
        assert(prev.trains.len() == w.trains.len());
        lemma_release_step_wf(prev, n - 1);
        assert(cur == release_step(prev, n - 1));
        match prev.trains[n - 1] {
            Some(t) => {
                match t.blocking_signal {
                    Some(bs) => {
                        if t.in_station is Some {
                            assert(train_wf(prev, t));
                            assert((bs as int) < prev.junctions.len() && prev.junctions[
                                bs as int].signal is Some);
                            assert(cur.trains[n - 1] matches Some(t2) && t2.blocking_signal
                                is None);
                        }
                    },
                    None => {},
                }
            },
            None => {},
        }
        assert forall|i: int|
            0 <= i < n implies ((#[trigger] cur.trains[i]) matches Some(t) ==> (t.in_station
            is Some ==> t.blocking_signal is None)) by {
            if i < n - 1 {
                assert(cur.trains[i] == prev.trains[i]);
            }
        }
    }
}

/// The stale-hold sweep never touches the trains.
pub proof fn lemma_sweep_upto_trains(w: WorldModel, n: int)
    ensures
        sweep_upto(w, n).trains == w.trains,
    decreases n,
{
    if n > 0 {
        lemma_sweep_upto_trains(w, n - 1);
        let prev = sweep_upto(w, n - 1);
        assert(sweep_step(prev, n - 1).trains == prev.trains) by {
            match prev.junctions[n - 1].signal {
                Some(_) => {},
                None => {},
            }
        }
    }
}

/// After the sweep, no swept signal's reservation or occupancy names a
/// parked train.
pub proof fn lemma_sweep_upto_no_stale(w: WorldModel, n: int)
    requires
        n <= w.junctions.len(),
        w.junctions.len() <= usize::MAX,
    ensures
        forall|j: int|
            0 <= j < n ==> ((#[trigger] sweep_upto(w, n).junctions[j]).signal matches Some(s)
                ==> {
                &&& (s.reserved_for matches Some(t) ==> !train_parked(w, t))
                &&& (s.occupied_by matches Some(t) ==> !train_parked(w, t))
            }),
    decreases n,
{
    lemma_sweep_upto_frame(w, n);
    if n > 0 {
        lemma_sweep_upto_no_stale(w, n - 1);
        lemma_sweep_upto_frame(w, n - 1);
        lemma_sweep_upto_trains(w, n - 1);
        let prev = sweep_upto(w, n - 1);
        let cur = sweep_upto(w, n);
        assert(cur == sweep_step(prev, n - 1));
        assert forall|j: int|
            0 <= j < n implies ((#[trigger] cur.junctions[j]).signal matches Some(s) ==> {
            &&& (s.reserved_for matches Some(t) ==> !train_parked(w, t))
            &&& (s.occupied_by matches Some(t) ==> !train_parked(w, t))
        }) by {
            match prev.junctions[n - 1].signal {
                Some(ps) => {
                    if j < n - 1 {
                        assert(cur.junctions[j] == prev.junctions[j]);
                    } else {
                        assert(prev.trains == w.trains);
                    }
                },
                None => {
                    if j < n - 1 {
                        assert(cur.junctions[j] == prev.junctions[j]);
                    }
                },
            }
        }
    }
}

/// After the cleanup phase no stale hold survives: no signal's reservation
/// or occupancy names a train that sits in a station, and no in-station
/// train retains a hand-off record.
pub proof fn lemma_clean_leaves_no_stale_holds(w: WorldModel)
    requires
        wf(w),
        w.trains.len() <= usize::MAX,
        w.junctions.len() <= usize::MAX,
    ensures
        ({
            let a = clean_phase(w);
            &&& forall|j: int|
                0 <= j < a.junctions.len() ==> ((#[trigger] a.junctions[j]).signal matches Some(s)
                    ==> {
                    &&& (s.reserved_for matches Some(t) ==> !train_parked(a, t))
                    &&& (s.occupied_by matches Some(t) ==> !train_parked(a, t))
                })
            &&& forall|i: int|
                0 <= i < a.trains.len() ==> ((#[trigger] a.trains[i]) matches Some(t)
                    ==> (t.in_station is Some ==> t.blocking_signal is None))
        }),
{
    let released = release_upto(w, w.trains.len() as int);
    lemma_release_upto_records(w, w.trains.len() as int);
    lemma_release_upto_frame(w, w.trains.len() as int);
    let a = clean_phase(w);
    lemma_sweep_upto_trains(released, released.junctions.len() as int);
    lemma_sweep_upto_no_stale(released, released.junctions.len() as int);
    lemma_sweep_upto_frame(released, released.junctions.len() as int);
    assert(a.trains == released.trains);
    assert forall|j: int|
        0 <= j < a.junctions.len() implies ((#[trigger] a.junctions[j]).signal matches Some(s)
        ==> {
        &&& (s.reserved_for matches Some(t) ==> !train_parked(a, t))
        &&& (s.occupied_by matches Some(t) ==> !train_parked(a, t))
    }) by {
        if let Some(s) = a.junctions[j].signal {
            assert((s.reserved_for matches Some(t) ==> !train_parked(released, t)) && (
            s.occupied_by matches Some(t) ==> !train_parked(released, t)));
        }
    }
}

/// Reservation exclusivity of one signal: when both the reservation and the
/// occupancy are set, they name the same train.
pub open spec fn signal_exclusive(s: JunctionSignal) -> bool {
    match (s.reserved_for, s.occupied_by) {
        (Some(a), Some(b)) => a == b,
        _ => true,
    }
}

/// Reservation exclusivity of every signal of the world: no two distinct
/// trains are ever recorded against the same signal.
pub open spec fn signals_exclusive(w: WorldModel) -> bool {
    forall|j: int|
        0 <= j < w.junctions.len() ==> ((#[trigger] w.junctions[j]).signal matches Some(s)
            ==> signal_exclusive(s))
}

/// The granting fold keeps exclusivity: a reservation is granted only on an
/// unreserved signal whose block is free or the train's own, and occupancies
/// themselves are never touched.
pub proof fn lemma_grant_upto_exclusive(w: WorldModel, n: int)
    requires
        n <= w.trains.len(),
        signals_exclusive(w),
    ensures
        signals_exclusive(grant_upto(w, n).0),
        grant_upto(w, n).0.junctions.len() == w.junctions.len(),
        grant_upto(w, n).0.trains.len() == w.trains.len(),
        forall|j: int|
            0 <= j < w.junctions.len() ==> ((#[trigger] grant_upto(w, n).0.junctions[j]).signal
                is Some <==> w.junctions[j].signal is Some),
        forall|j: int|
            0 <= j < w.junctions.len() ==> ((#[trigger] grant_upto(w, n).0.junctions[j]).signal
                matches Some(sg) ==> sg.occupied_by == w.junctions[j].signal.unwrap().occupied_by),
        forall|k: int|
            0 <= k < w.trains.len() ==> ((#[trigger] grant_upto(w, n).0.trains[k] is Some)
                <==> w.trains[k] is Some),
        forall|k: int|
            0 <= k < w.trains.len() ==> (#[trigger] grant_upto(w, n).0.trains[k] matches Some(tk)
                ==> tk.route == w.trains[k].unwrap().route),
    decreases n,
{
    if n > 0 {
        lemma_grant_upto_exclusive(w, n - 1);
        let prev = grant_upto(w, n - 1);
        let cur = grant_upto(w, n);
        let i = n - 1;
        lemma_grant_step_preserves(prev.0, prev.1, i);
        assert forall|j: int|
            0 <= j < w.junctions.len() implies ((#[trigger] cur.0.junctions[j]).signal matches Some(
            sg,
        ) ==> signal_exclusive(sg)) by {
            if let Some(sg) = cur.0.junctions[j].signal {
                let prevs = prev.0.junctions[j].signal.unwrap();
                if sg.reserved_for == prevs.reserved_for {
                    assert(signal_exclusive(prevs));
                } else {
                    // A fresh reservation for train `i`: granted only when
                    // the block is unoccupied or the train's own.
                    assert(sg.reserved_for == Some(i as usize));
                    assert(prevs.occupied_by is None || prevs.occupied_by == Some(i as usize));
                    assert(sg.occupied_by == prevs.occupied_by);
                }
            }
        }
    }
}

/// Reservation exclusivity survives the dispatcher phase: the granting pass
/// never reserves a block that a different train occupies, and the
/// state-derivation pass touches nothing but displayed states.
pub proof fn lemma_dispatch_preserves_exclusivity(w: WorldModel)
    requires
        signals_exclusive(w),
        w.junctions.len() <= usize::MAX,
    ensures
        signals_exclusive(dispatch_phase(w)),
{
    lemma_grant_upto_exclusive(w, w.trains.len() as int);
    let granted = grant_upto(w, w.trains.len() as int);
    lemma_derive_upto_structure(granted.0, granted.1, granted.0.junctions.len() as int);
    let a = dispatch_phase(w);
    assert forall|j: int|
        0 <= j < a.junctions.len() implies ((#[trigger] a.junctions[j]).signal matches Some(s)
        ==> signal_exclusive(s)) by {
        if let Some(s) = a.junctions[j].signal {
            let gs = granted.0.junctions[j].signal.unwrap();
            assert(signal_exclusive(gs));
            assert(s.reserved_for == gs.reserved_for && s.occupied_by == gs.occupied_by);
        }
    }
}

/// One hand-off keeps exclusivity, violations included: the entered block's
/// reservation is cleared before the block is occupied, a foreign occupant
/// is never overwritten, and the released block merely loses its occupant.
pub proof fn lemma_handoff_exclusive(w: WorldModel, i: int, hop: usize)
    requires
        0 <= i < w.trains.len(),
        (hop as int) < w.junctions.len(),
        w.junctions[hop as int].signal is Some,
        signals_exclusive(w),
        w.trains.len() <= usize::MAX,
    ensures
        signals_exclusive(handoff_spec(w, i, hop)),
{
    let t = w.trains[i].unwrap();
    let a = handoff_released(w, i);
    let b = handoff_unreserved(w, i, hop);
    let c = handoff_occupied(w, i, hop);
    let fin = handoff_spec(w, i, hop);
    assert(signals_exclusive(a) && a.junctions.len() == w.junctions.len() && a.junctions[
        hop as int].signal is Some) by {
        match t.blocking_signal {
            Some(prev) => {
                if (prev as int) < w.junctions.len() && w.junctions[prev as int].signal is Some {
                    let cleared = WorldModel {
                        trains: w.trains.update(i, Some(TrainModel { blocking_signal: None, ..t })),
                        ..w
                    };
                    assert(signals_exclusive(cleared));
                    let ps = w.junctions[prev as int].signal.unwrap();
                    if ps.occupied_by == Some(i as usize) {
                        assert(a =~= with_occupancy(cleared, prev, None));
                        lemma_exclusive_with_occupancy(cleared, prev, None);
                    } else {
                        assert(a.junctions == cleared.junctions);
                    }
                }
            },
            None => {},
        }
    }
    assert(b.junctions =~= with_reservation(a, hop, None).junctions);
    lemma_exclusive_with_reservation(a, hop, None);
    assert(signals_exclusive(b)) by {
        assert forall|x: int|
            0 <= x < b.junctions.len() implies ((#[trigger] b.junctions[x]).signal matches Some(sg)
            ==> signal_exclusive(sg)) by {
            assert(b.junctions[x] == with_reservation(a, hop, None).junctions[x]);
            assert(with_reservation(a, hop, None).junctions[x].signal matches Some(s2)
                ==> signal_exclusive(s2));
        }
    }
    let hs2 = b.junctions[hop as int].signal.unwrap();
    assert(hs2.reserved_for is None);
    assert(signals_exclusive(c)) by {
        match hs2.occupied_by {
            None => {
                let occupied = with_occupancy(b, hop, Some(i as usize));
                lemma_exclusive_with_occupancy(b, hop, Some(i as usize));
                assert(c.junctions =~= occupied.junctions);
                assert forall|x: int|
                    0 <= x < c.junctions.len() implies ((#[trigger] c.junctions[x]).signal
                    matches Some(sg) ==> signal_exclusive(sg)) by {
                    assert(c.junctions[x] == occupied.junctions[x]);
                    assert(occupied.junctions[x].signal matches Some(s2) ==> signal_exclusive(s2));
                }
            },
            Some(o) => {
                assert(c.junctions == b.junctions);
            },
        }
    }
    assert(fin.junctions == c.junctions);
}

/// One navigator step keeps exclusivity, violations included.
pub proof fn lemma_navigate_step_exclusive(w: WorldModel, i: int)
    requires
        0 <= i < w.trains.len(),
        w.trains.len() <= usize::MAX,
        signals_exclusive(w),
    ensures
        signals_exclusive(navigate_step(w, i)),
{
    match w.trains[i] {
        Some(t) => match t.route {
            Some(r) => {
                if r.hops.len() >= 1 && (r.hops[0] as int) < w.junctions.len()
                    && crate::physics::distance_spec(
                    t.position,
                    w.junctions[r.hops[0] as int].position,
                ) < ARRIVAL_RADIUS as int {
                    let hop = r.hops[0];
                    let popped = RouteModel { hops: r.hops.drop_first(), dest: r.dest };
                    let w1 = WorldModel {
                        trains: w.trains.update(i, Some(TrainModel { route: Some(popped), ..t })),
                        ..w
                    };
                    assert(signals_exclusive(w1));
                    if w.junctions[hop as int].signal is Some {
                        lemma_handoff_exclusive(w1, i, hop);
                        assert(signals_exclusive(handoff_spec(w1, i, hop)));
                    }
                }
            },
            None => {},
        },
        None => {},
    }
}

/// The navigator phase keeps exclusivity, violations included.
pub proof fn lemma_navigate_upto_exclusive(w: WorldModel, n: int)
    requires
        n <= w.trains.len(),
        w.trains.len() <= usize::MAX,
        signals_exclusive(w),
    ensures
        signals_exclusive(navigate_upto(w, n)),
    decreases n,
{
    if n > 0 {
        let prev = navigate_upto(w, n - 1);
        lemma_navigate_upto_frame(w, n - 1);
        lemma_navigate_upto_exclusive(w, n - 1);
        lemma_navigate_step_exclusive(prev, n - 1);
    }
}

/// One stale-block or stale-reservation step only clears fields, so it keeps
/// exclusivity; the cleanup phase therefore does too.
pub proof fn lemma_clean_preserves_exclusivity(w: WorldModel)
    requires
        signals_exclusive(w),
        w.trains.len() <= usize::MAX,
        w.junctions.len() <= usize::MAX,
    ensures
        signals_exclusive(clean_phase(w)),
{
    lemma_release_upto_exclusive(w, w.trains.len() as int);
    lemma_release_upto_frame(w, w.trains.len() as int);
    let released = release_upto(w, w.trains.len() as int);
    lemma_sweep_upto_exclusive(released, released.junctions.len() as int);
}

pub proof fn lemma_release_upto_exclusive(w: WorldModel, n: int)
    requires
        signals_exclusive(w),
    ensures
        signals_exclusive(release_upto(w, n)),
    decreases n,
{
    if n > 0 {
        lemma_release_upto_exclusive(w, n - 1);
        let prev = release_upto(w, n - 1);
        let cur = release_upto(w, n);
        assert(signals_exclusive(cur)) by {
            match prev.trains[n - 1] {
                Some(t) => {
                    match t.blocking_signal {
                        Some(bs) => {
                            assert forall|j: int|
                                0 <= j < cur.junctions.len() implies ((
                            #[trigger] cur.junctions[j]).signal matches Some(sg)
                                ==> signal_exclusive(sg)) by {
                                if j != bs as int {
                                    assert(cur.junctions[j] == prev.junctions[j]);
                                    assert(prev.junctions[j].signal matches Some(s2)
                                        ==> signal_exclusive(s2));
                                }
                            }
                        },
                        None => {},
                    }
                },
                None => {},
            }
        }
    }
}

pub proof fn lemma_sweep_upto_exclusive(w: WorldModel, n: int)
    requires
        signals_exclusive(w),
        n <= w.junctions.len(),
        w.junctions.len() <= usize::MAX,
    ensures
        signals_exclusive(sweep_upto(w, n)),
    decreases n,
{
    if n > 0 {
        lemma_sweep_upto_exclusive(w, n - 1);
        lemma_sweep_upto_frame(w, n - 1);
        let prev = sweep_upto(w, n - 1);
        let cur = sweep_upto(w, n);
        assert(signals_exclusive(cur)) by {
            match prev.junctions[n - 1].signal {
                Some(sg) => {
                    match sg.reserved_for {
                        Some(_) => {
                            lemma_exclusive_with_reservation(prev, (n - 1) as usize, None);
                        },
                        None => {},
                    }
                },
                None => {},
            }
        }
    }
}

/// Reservation exclusivity, across one whole tick: on every signal,
/// `reserved_for` and `occupied_by`, where both set, name one and the same
/// train, and no phase of the tick ever records two distinct trains against
/// one signal.
pub proof fn lemma_tick_preserves_exclusivity(w: WorldModel, dt: int)
    requires
        wf(w),
        signals_exclusive(w),
        w.trains.len() <= usize::MAX,
        w.junctions.len() <= usize::MAX,
    ensures
        signals_exclusive(tick_spec(w, dt)),
{
    let w1 = route_phase(w);
    lemma_route_upto_frame(w, w.trains.len() as int);
    assert(w1.junctions == w.junctions);
    assert(signals_exclusive(w1));
    let w2 = navigate_phase(w1);
    lemma_navigate_upto_frame(w1, w1.trains.len() as int);
    lemma_navigate_upto_exclusive(w1, w1.trains.len() as int);
    assert(signals_exclusive(w2));
    let w3 = dispatch_phase(w2);
    lemma_dispatch_preserves_exclusivity(w2);
    assert(signals_exclusive(w3));
    lemma_dispatch_frames(w2, w2.trains.len() as int);
    let granted = grant_upto(w2, w2.trains.len() as int);
    lemma_grant_upto_go_ok(w2, w2.trains.len() as int);
    lemma_derive_upto_structure(granted.0, granted.1, granted.0.junctions.len() as int);
    let w4 = drive_phase(w3);
    lemma_kinematics_frames(w3, w3.trains.len() as int, dt);
    lemma_kinematics_frames(road_upto(w3, w3.trains.len() as int), w3.trains.len() as int, dt);
    assert(w4.junctions == w3.junctions);
    assert(signals_exclusive(w4));
    let w5 = motion_phase(w4, dt);
    lemma_kinematics_frames(w4, w4.trains.len() as int, dt);
    assert(w5.junctions == w4.junctions);
    assert(signals_exclusive(w5));
    let w6 = clean_phase(w5);
    lemma_clean_preserves_exclusivity(w5);
    assert(signals_exclusive(w6));
    lemma_commit_upto_frame(w6, w6.doomed.len() as int);
    let fin = tick_spec(w, dt);
    assert(fin.junctions == w6.junctions);
    assert forall|j: int|
        0 <= j < fin.junctions.len() implies ((#[trigger] fin.junctions[j]).signal matches Some(s)
        ==> signal_exclusive(s)) by {
        assert(w6.junctions[j].signal matches Some(s2) ==> signal_exclusive(s2));
    }
}

} // verus!
