//! The junction graph and the route planner: a depth-first walk that prefers
//! signal-free paths and is bounded by a fixed hop budget.
use vstd::prelude::*;
use crate::physics::Position;
use crate::signals::JunctionSignal;

verus! {

/// A node of the rail network. Edges are symmetric: `connect` appends each
/// endpoint to the other's list. Terminals are real origins/destinations;
/// `signal` is present on the signal-bearing junctions.
pub struct Junction {
    pub connections: Vec<usize>,
    pub is_terminal: bool,
    pub position: Position,
    pub signal: Option<JunctionSignal>,
}

/// Spec-level image of a [`Junction`].
#[verifier::ext_equal]
pub ghost struct JunctionModel {
    pub connections: Seq<usize>,
    pub is_terminal: bool,
    pub position: Position,
    pub signal: Option<JunctionSignal>,
}

impl View for Junction {
    type V = JunctionModel;

    open spec fn view(&self) -> JunctionModel {
        JunctionModel {
            connections: self.connections@,
            is_terminal: self.is_terminal,
            position: self.position,
            signal: self.signal,
        }
    }
}

impl Junction {
    pub fn new() -> (r: Self)
        ensures
            r@.connections == Seq::<usize>::empty(),
            !r@.is_terminal,
            r@.signal is None,
            r@.position == (Position { x: 0, y: 0 }),
    {
        Self {
            connections: Vec::new(),
            is_terminal: false,
            position: Position { x: 0, y: 0 },
            signal: None,
        }
    }

    pub fn new_terminal() -> (r: Self)
        ensures
            r@.connections == Seq::<usize>::empty(),
            r@.is_terminal,
            r@.signal is None,
            r@.position == (Position { x: 0, y: 0 }),
    {
        Self {
            connections: Vec::new(),
            is_terminal: true,
            position: Position { x: 0, y: 0 },
            signal: None,
        }
    }
}

/// The graph as a sequence of junction models.
pub open spec fn graph_model(s: Seq<Junction>) -> Seq<JunctionModel> {
    s.map_values(|j: Junction| j@)
}

/// Every edge points at a junction of the graph.
pub open spec fn graph_wf(g: Seq<JunctionModel>) -> bool {
    forall|j: int, k: int|
        0 <= j < g.len() && 0 <= k < g[j].connections.len()
            ==> (#[trigger] g[j].connections[k]) < g.len()
}

/// The ordered hops a train still has to pass, ending at `dest`.
pub struct TrainRoute {
    pub hops: Vec<usize>,
    pub dest: usize,
}

/// Spec-level image of a [`TrainRoute`].
#[verifier::ext_equal]
pub ghost struct RouteModel {
    pub hops: Seq<usize>,
    pub dest: usize,
}

impl View for TrainRoute {
    type V = RouteModel;

    open spec fn view(&self) -> RouteModel {
        RouteModel { hops: self.hops@, dest: self.dest }
    }
}

impl TrainRoute {
    pub fn new(path: Vec<usize>, dest: usize) -> (r: Self)
        ensures
            r@.hops == path@,
            r@.dest == dest,
    {
        Self { hops: path, dest }
    }

    /// The hop the train is currently heading for.
    pub fn next_hop(&self) -> (r: usize)
        requires
            self@.hops.len() > 0,
        ensures
            r == self@.hops[0],
    {
        self.hops[0]
    }

    /// Pop the hop the train has just reached.
    pub fn arrived_at_hop(&mut self) -> (r: usize)
        requires
            old(self)@.hops.len() > 0,
        ensures
            r == old(self)@.hops[0],
            final(self)@.hops == old(self)@.hops.drop_first(),
            final(self)@.dest == old(self)@.dest,
    {
        let h = self.hops.remove(0);
        proof {
            assert(self.hops@ =~= old(self).hops@.drop_first());
        }
        h
    }
}

/// Planning failed: the destination is unreachable within the hop budget.
#[derive(Clone, Copy, PartialEq, Eq, Structural, Debug)]
pub struct NoRouteFound;

/// Bound on the recursion depth of the planner's walk, guarding against
/// cycles in the topology.
pub const HOP_BUDGET: u8 = 32;

/// The planner's walk from `curr`: try every neighbor in order, first
/// refusing to step into signal-bearing junctions, then (only if that pass
/// found nothing) allowing them. Returns the hops after `curr`, ending at
/// `dest`, of the first full path found.
pub open spec fn walk_spec(
    g: Seq<JunctionModel>,
    visited: Seq<usize>,
    curr: usize,
    dest: usize,
    ttl: nat,
) -> Option<Seq<usize>>
    decreases ttl, 2int, 0int,
{
    if ttl == 0 || curr as int >= g.len() {
        None
    } else {
        let conns = g[curr as int].connections;
        match walk_pass_spec(g, visited, curr, conns, dest, ttl, true) {
            Some(p) => Some(p),
            None => walk_pass_spec(g, visited, curr, conns, dest, ttl, false),
        }
    }
}

/// One pass of the walk over the remaining neighbor list `conns`: skip
/// visited junctions (and, when `avoid_signals`, signal-bearing ones); stop
/// at `dest`; otherwise recurse into the neighbor and fall back to the rest
/// of the list.
pub open spec fn walk_pass_spec(
    g: Seq<JunctionModel>,
    visited: Seq<usize>,
    curr: usize,
    conns: Seq<usize>,
    dest: usize,
    ttl: nat,
    avoid_signals: bool,
) -> Option<Seq<usize>>
    decreases ttl, (if avoid_signals { 1int } else { 0int }), conns.len(),
{
    if ttl == 0 || conns.len() == 0 {
        None
    } else {
        let next = conns[0];
        let rest = conns.drop_first();
        if visited.contains(next) || next as int >= g.len() || (avoid_signals && g[
            next as int].signal is Some) {
            walk_pass_spec(g, visited, curr, rest, dest, ttl, avoid_signals)
        } else if next == dest {
            Some(seq![next])
        } else {
            match walk_spec(g, visited.push(curr), next, dest, (ttl - 1) as nat) {
                Some(p) => Some(seq![next] + p),
                None => walk_pass_spec(g, visited, curr, rest, dest, ttl, avoid_signals),
            }
        }
    }
}

/// What `plan_route` computes: the walk from the origin with an empty
/// visited set and the full hop budget.
pub open spec fn plan_result_spec(
    g: Seq<JunctionModel>,
    origin: usize,
    dest: usize,
) -> Option<Seq<usize>> {
    walk_spec(g, Seq::empty(), origin, dest, HOP_BUDGET as nat)
}

/// A successful walk yields a nonempty path of valid junction ids that ends
/// at the destination and follows edges of the graph.
pub proof fn lemma_walk_valid(
    g: Seq<JunctionModel>,
    visited: Seq<usize>,
    curr: usize,
    dest: usize,
    ttl: nat,
)
    requires
        graph_wf(g),
        (curr as int) < g.len(),
    ensures
        walk_spec(g, visited, curr, dest, ttl) matches Some(p) ==> {
            &&& p.len() >= 1
            &&& p[p.len() - 1] == dest
            &&& forall|i: int| 0 <= i < p.len() ==> (#[trigger] p[i] as int) < g.len()
            &&& g[curr as int].connections.contains(p[0])
            &&& forall|i: int|
                0 <= i < p.len() - 1 ==> g[p[i] as int].connections.contains(#[trigger] p[i + 1])
        },
    decreases ttl, 2int, 0int,
{
    if ttl > 0 {
        let conns = g[curr as int].connections;
        assert(forall|i: int|
            0 <= i < conns.len() ==> g[curr as int].connections.contains(#[trigger] conns[i]));
        lemma_walk_pass_valid(g, visited, curr, conns, dest, ttl, true);
        lemma_walk_pass_valid(g, visited, curr, conns, dest, ttl, false);
    }
}

/// As `lemma_walk_valid`, for one pass over a suffix of the neighbor list.
pub proof fn lemma_walk_pass_valid(
    g: Seq<JunctionModel>,
    visited: Seq<usize>,
    curr: usize,
    conns: Seq<usize>,
    dest: usize,
    ttl: nat,
    avoid_signals: bool,
)
    requires
        graph_wf(g),
        (curr as int) < g.len(),
        forall|i: int|
            0 <= i < conns.len() ==> g[curr as int].connections.contains(#[trigger] conns[i]),
    ensures
        walk_pass_spec(g, visited, curr, conns, dest, ttl, avoid_signals) matches Some(p) ==> {
            &&& p.len() >= 1
            &&& p[p.len() - 1] == dest
            &&& forall|i: int| 0 <= i < p.len() ==> (#[trigger] p[i] as int) < g.len()
            &&& g[curr as int].connections.contains(p[0])
            &&& forall|i: int|
                0 <= i < p.len() - 1 ==> g[p[i] as int].connections.contains(#[trigger] p[i + 1])
        },
    decreases ttl, (if avoid_signals { 1int } else { 0int }), conns.len(),
{
    if ttl == 0 || conns.len() == 0 {
    } else {
        let next = conns[0];
        let rest = conns.drop_first();
        assert(forall|i: int|
            0 <= i < rest.len() ==> g[curr as int].connections.contains(#[trigger] rest[i]));
        if visited.contains(next) || next as int >= g.len() || (avoid_signals && g[
            next as int].signal is Some) {
            lemma_walk_pass_valid(g, visited, curr, rest, dest, ttl, avoid_signals);
        } else if next == dest {
        } else {
            lemma_walk_valid(g, visited.push(curr), next, dest, (ttl - 1) as nat);
            lemma_walk_pass_valid(g, visited, curr, rest, dest, ttl, avoid_signals);
            match walk_spec(g, visited.push(curr), next, dest, (ttl - 1) as nat) {
                Some(tail) => {
                    let p = seq![next] + tail;
                    assert(p[p.len() - 1] == tail[tail.len() - 1]);
                    assert(p[0] == next);
                    assert(forall|i: int| 0 <= i < tail.len() ==> p[i + 1] == tail[i]);
                    assert(g[p[0] as int].connections.contains(p[1])) by {
                        assert(p[1] == tail[0]);
                        assert(g[next as int].connections.contains(tail[0]));
                    }
                    assert(forall|i: int|
                        1 <= i < p.len() - 1 ==> g[p[i] as int].connections.contains(
                            #[trigger] p[i + 1])) by {
                        assert(forall|i: int|
                            0 <= i < tail.len() - 1 ==> g[tail[i] as int].connections.contains(
                                #[trigger] tail[i + 1]));
                    }
                },
                None => {},
            }
        }
    }
}

/// The spec-level image of an optional hop vector.
pub open spec fn opt_hops(r: Option<Vec<usize>>) -> Option<Seq<usize>> {
    match r {
        Some(v) => Some(v@),
        None => None,
    }
}

/// Whether `x` occurs in `v`.
pub(crate) fn contains_id(v: &Vec<usize>, x: usize) -> (r: bool)
    ensures
        r == v@.contains(x),
{
    let n = v.len();
    let mut k: usize = 0;
    while k < n
        invariant
            k <= n,
            n == v@.len(),
            forall|j: int| 0 <= j < k ==> v@[j] != x,
        decreases n - k,
    {
        if v[k] == x {
            return true;
        }
        k += 1;
    }
    false
}

/// A fresh vector with the same ids.
fn copy_ids(v: &Vec<usize>) -> (r: Vec<usize>)
    ensures
        r@ == v@,
{
    let n = v.len();
    let mut r: Vec<usize> = Vec::new();
    let mut k: usize = 0;
    while k < n
        invariant
            k <= n,
            n == v@.len(),
            r@ == v@.take(k as int),
        decreases n - k,
    {
        r.push(v[k]);
        proof {
            assert(r@ =~= v@.take(k + 1));
        }
        k += 1;
    }
    proof {
        assert(v@.take(n as int) =~= v@);
    }
    r
}

/// One pass of the exec walk over the neighbors of `curr`.
fn walk_pass(
    junctions: &Vec<Junction>,
    visited: &Vec<usize>,
    curr: usize,
    dest: usize,
    ttl: u8,
    avoid_signals: bool,
) -> (r: Option<Vec<usize>>)
    requires
        graph_wf(graph_model(junctions@)),
        (curr as int) < junctions@.len(),
        ttl >= 1,
    ensures
        opt_hops(r) == walk_pass_spec(
            graph_model(junctions@),
            visited@,
            curr,
            graph_model(junctions@)[curr as int].connections,
            dest,
            ttl as nat,
            avoid_signals,
        ),
    decreases ttl as int, (if avoid_signals { 1int } else { 0int }),
{
    let ghost g = graph_model(junctions@);
    let ghost full = g[curr as int].connections;
    let n = junctions[curr].connections.len();
    proof {
        assert(full.skip(0) =~= full);
    }
    let mut k: usize = 0;
    while k < n
        invariant
            graph_wf(g),
            g == graph_model(junctions@),
            full == g[curr as int].connections,
            (curr as int) < junctions@.len(),
            ttl >= 1,
            k <= n,
            n == full.len(),
            walk_pass_spec(g, visited@, curr, full.skip(k as int), dest, ttl as nat, avoid_signals)
                == walk_pass_spec(g, visited@, curr, full, dest, ttl as nat, avoid_signals),
        decreases n - k,
    {
        let next = junctions[curr].connections[k];
        let ghost pending = full.skip(k as int);
        proof {
            assert(pending[0] == next);
            assert(pending.drop_first() =~= full.skip(k as int + 1));
            assert((next as int) < g.len()) by {
                assert(g[curr as int].connections[k as int] < g.len());
            }
        }
        let mut skip_this = contains_id(visited, next);
        if !skip_this && avoid_signals {
            skip_this = junctions[next].signal.is_some();
        }
        if !skip_this {
            if next == dest {
                let mut p: Vec<usize> = Vec::new();
                p.push(next);
                proof {
                    assert(p@ =~= seq![next]);
                }
                return Some(p);
            }
            // The walk records the junction it descends from; here that is
            // `curr`, so hand the callee `visited + [curr]`.
            let mut below = copy_ids(visited);
            below.push(curr);
            proof {
                assert(below@ =~= visited@.push(curr));
            }
            let sub = walk(junctions, &below, next, dest, ttl - 1);
            match sub {
                Some(mut p) => {
                    let ghost sub_hops = p@;
                    p.insert(0, next);
                    proof {
                        assert(p@ =~= seq![next] + sub_hops);
                    }
                    return Some(p);
                },
                None => {},
            }
        }
        k += 1;
    }
    proof {
        assert(full.skip(n as int) =~= Seq::<usize>::empty());
    }
    None
}

/// The exec walk: the signal-avoiding pass first, then the permissive pass.
fn walk(junctions: &Vec<Junction>, visited: &Vec<usize>, curr: usize, dest: usize, ttl: u8) -> (r:
    Option<Vec<usize>>)
    requires
        graph_wf(graph_model(junctions@)),
        (curr as int) < junctions@.len(),
    ensures
        opt_hops(r) == walk_spec(graph_model(junctions@), visited@, curr, dest, ttl as nat),
    decreases ttl as int, 2int,
{
    if ttl == 0 {
        return None;
    }
    let first = walk_pass(junctions, visited, curr, dest, ttl, true);
    match first {
        Some(p) => Some(p),
        None => walk_pass(junctions, visited, curr, dest, ttl, false),
    }
}

/// Find an ordered hop sequence from `origin` to `dest` across the graph,
/// preferring paths that avoid signal-bearing junctions where an alternative
/// exists. The returned hops follow graph edges, end at `dest`, and are the
/// unique result of the deterministic two-pass walk; `NoRouteFound` comes
/// back exactly when that walk finds no path within the hop budget.
pub fn plan_route(junctions: &Vec<Junction>, origin: usize, dest: usize) -> (r: Result<
    TrainRoute,
    NoRouteFound,
>)
    requires
        graph_wf(graph_model(junctions@)),
        (origin as int) < junctions@.len(),
    ensures
        r matches Ok(route) ==> {
            &&& plan_result_spec(graph_model(junctions@), origin, dest) == Some(route@.hops)
            &&& route@.dest == dest
            &&& route@.hops.len() >= 1
            &&& route@.hops[route@.hops.len() - 1] == dest
            &&& forall|i: int|
                0 <= i < route@.hops.len() ==> (#[trigger] route@.hops[i] as int)
                    < junctions@.len()
            &&& graph_model(junctions@)[origin as int].connections.contains(route@.hops[0])
            &&& forall|i: int|
                0 <= i < route@.hops.len() - 1 ==> graph_model(junctions@)[route@.hops[
                    i] as int].connections.contains(#[trigger] route@.hops[i + 1])
        },
        r is Err <==> plan_result_spec(graph_model(junctions@), origin, dest) is None,
{
    let empty_visited: Vec<usize> = Vec::new();
    let hops = walk(junctions, &empty_visited, origin, dest, HOP_BUDGET);
    proof {
        lemma_walk_valid(
            graph_model(junctions@),
            Seq::empty(),
            origin,
            dest,
            HOP_BUDGET as nat,
        );
    }
    match hops {
        Some(p) => Ok(TrainRoute::new(p, dest)),
        None => Err(NoRouteFound),
    }
}

/// The planner is deterministic: two results that both satisfy
/// `plan_route`'s contract against the same graph, origin and destination
/// are identical hop for hop.
pub proof fn lemma_plan_route_deterministic(
    g: Seq<JunctionModel>,
    origin: usize,
    dest: usize,
    r1: Option<RouteModel>,
    r2: Option<RouteModel>,
)
    requires
        r1 matches Some(m) ==> plan_result_spec(g, origin, dest) == Some(m.hops) && m.dest == dest,
        r1 is None <==> plan_result_spec(g, origin, dest) is None,
        r2 matches Some(m) ==> plan_result_spec(g, origin, dest) == Some(m.hops) && m.dest == dest,
        r2 is None <==> plan_result_spec(g, origin, dest) is None,
    ensures
        r1 == r2,
{
}

} // verus!
