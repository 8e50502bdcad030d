//! The best-first, deadline-bounded search for the most profitable chain
//! of loads.
//!
//! Each trip request is answered by one independent search over the load
//! graph. The frontier is ordered by money earned (ties broken by earlier
//! arrival), a location is finalized the first time it is expanded and
//! never reconsidered, and every candidate that would arrive at or after
//! the deadline is pruned. The returned route is proved to be a real
//! chain of edges in the graph, starting at the requested location and
//! time, with exact accumulation of money, distance and time, every
//! arrival before the deadline, and no location visited twice.

use vstd::prelude::*;
use std::collections::HashMap;
use crate::coord::Coord;
use crate::distance::{EDGE_DIST_MAX_MILLI, EARTH_RADIUS_M, RADIUS_LIMIT_M};
use crate::fixmath::lemma_mul_div_bound;
use crate::graph::LoadGraph;
use vstd::arithmetic::div_mod::{lemma_div_pos_is_pos, lemma_div_is_ordered,
    lemma_div_is_ordered_by_denominator};
use vstd::set_lib::lemma_len_subset;

verus! {

broadcast use vstd::std_specs::hash::group_hash_axioms;

/// The cost model of the engine: fuel cost in thousandths of a currency
/// unit per mile, average speed in miles per hour, and the sphere radius
/// used to price edges, in metres.
#[derive(Clone, Copy, Debug, PartialEq, Eq, Structural)]
pub struct EngineConfig {
    pub fuel_cost_milli_per_mile: u64,
    pub speed_mph: u64,
    pub earth_radius_m: u64,
}

impl EngineConfig {
    /// The configuration is well formed when the speed is positive and
    /// every parameter is within its documented bound.
    pub open spec fn wf(self) -> bool {
        &&& 1 <= self.speed_mph <= 10_000
        &&& self.fuel_cost_milli_per_mile <= 1_000_000
        &&& 1 <= self.earth_radius_m <= RADIUS_LIMIT_M
    }

    /// The stock cost model: forty hundredths per mile, fifty-five miles
    /// per hour, the mean Earth radius.
    pub fn stock() -> (c: EngineConfig)
        ensures
            c.fuel_cost_milli_per_mile == 400,
            c.speed_mph == 55,
            c.earth_radius_m == EARTH_RADIUS_M,
            c.wf(),
    {
        EngineConfig { fuel_cost_milli_per_mile: 400, speed_mph: 55, earth_radius_m: EARTH_RADIUS_M }
    }
}

/// One trip request: who asks, where and when the truck starts, and the
/// time it must be done by.
#[derive(Clone, Copy, Debug, PartialEq, Eq, Structural)]
pub struct TripRequest {
    pub trip_id: u64,
    pub start: Coord,
    pub start_time: i64,
    pub deadline: i64,
}

impl TripRequest {
    /// A request is well formed when its start coordinate is.
    pub open spec fn wf(self) -> bool {
        self.start.wf()
    }
}

/// One traversed edge of a returned route, with the truck's state on
/// arrival: cumulative money, cumulative distance, arrival time, and the
/// net profit score of the chain up to here.
#[derive(Clone, Copy, Debug, PartialEq, Eq, Structural)]
pub struct RouteStep {
    pub load_id: u64,
    pub destination: Coord,
    pub arrival_time: i64,
    pub money_earned: u64,
    pub distance_milli: u64,
    pub net_profit_milli: i128,
}

/// Travel time in whole seconds for a distance in thousandths of a mile,
/// rounded down.
pub open spec fn spec_travel_secs(cfg: EngineConfig, dist_milli: int) -> int {
    (dist_milli * 3600) / (cfg.speed_mph * 1000)
}

/// Net profit in thousandths of a currency unit: money earned minus the
/// fuel cost of the distance covered.
pub open spec fn spec_net_profit_milli(cfg: EngineConfig, money: int, dist_milli: int) -> int {
    money * 1000 - (dist_milli * cfg.fuel_cost_milli_per_mile) / 1000
}

/// Computes the travel time of a distance in whole seconds.
pub fn travel_secs(cfg: &EngineConfig, dist_milli: u64) -> (t: u64)
    requires
        cfg.wf(),
        dist_milli <= EDGE_DIST_MAX_MILLI,
    ensures
        t == spec_travel_secs(*cfg, dist_milli as int),
        t <= 7_200_000_000,
{
    let den: u128 = cfg.speed_mph as u128 * 1000;
    proof {
        lemma_div_is_ordered_by_denominator(dist_milli as int * 3600, 1000, den as int);
        lemma_div_is_ordered(dist_milli as int * 3600, EDGE_DIST_MAX_MILLI as int * 3600, 1000);
        lemma_div_pos_is_pos(dist_milli as int * 3600, den as int);
    }
    ((dist_milli as u128 * 3600) / den) as u64
}

/// Computes the net profit score of a cumulative state.
pub fn net_profit_milli(cfg: &EngineConfig, money: u64, dist_milli: u64) -> (r: i128)
    requires
        cfg.wf(),
    ensures
        r == spec_net_profit_milli(*cfg, money as int, dist_milli as int),
{
    proof {
        lemma_mul_div_bound(dist_milli as int, cfg.fuel_cost_milli_per_mile as int,
            u64::MAX as int, 1_000_000, 1000);
    }
    let fuel: u128 = (dist_milli as u128 * cfg.fuel_cost_milli_per_mile as u128) / 1000;
    let money_milli: i128 = money as i128 * 1000;
    money_milli - fuel as i128
}

/// The step `st` traverses edge number `i` out of `loc`, from the given
/// cumulative state, arriving before the deadline.
pub open spec fn step_matches_edge(
    g: LoadGraph,
    cfg: EngineConfig,
    req: TripRequest,
    loc: Coord,
    time: int,
    money: int,
    dist: int,
    st: RouteStep,
    i: int,
) -> bool {
    let e = g.adj_map()[loc.spec_key()][i];
    &&& st.load_id == e.load_id
    &&& st.destination == e.dest
    &&& st.destination.wf()
    &&& st.money_earned == money + e.amount
    &&& st.distance_milli == dist + e.distance_milli
    &&& st.arrival_time == time + spec_travel_secs(cfg, e.distance_milli as int)
    &&& st.net_profit_milli == spec_net_profit_milli(cfg, st.money_earned as int,
        st.distance_milli as int)
    &&& st.arrival_time < req.deadline
}

/// The step `st` traverses some edge out of `loc` from the given state.
pub open spec fn step_from(
    g: LoadGraph,
    cfg: EngineConfig,
    req: TripRequest,
    loc: Coord,
    time: int,
    money: int,
    dist: int,
    st: RouteStep,
) -> bool {
    &&& g.adj_map().contains_key(loc.spec_key())
    &&& exists|i: int|
        0 <= i < g.adj_map()[loc.spec_key()].len() && #[trigger] step_matches_edge(g, cfg, req,
            loc, time, money, dist, st, i)
}

/// The steps form a chain of edges in the graph, starting from the given
/// location and cumulative state, each step accumulating exactly.
pub open spec fn chain_ok_from(
    g: LoadGraph,
    cfg: EngineConfig,
    req: TripRequest,
    loc: Coord,
    time: int,
    money: int,
    dist: int,
    steps: Seq<RouteStep>,
) -> bool
    decreases steps.len(),
{
    steps.len() == 0 || {
        &&& step_from(g, cfg, req, loc, time, money, dist, steps[0])
        &&& chain_ok_from(g, cfg, req, steps[0].destination, steps[0].arrival_time as int,
            steps[0].money_earned as int, steps[0].distance_milli as int, steps.drop_first())
    }
}

/// The location a chain ends at, and the state it ends with.
pub open spec fn chain_end_loc(loc: Coord, steps: Seq<RouteStep>) -> Coord {
    if steps.len() == 0 {
        loc
    } else {
        steps.last().destination
    }
}

pub open spec fn chain_end_time(time: int, steps: Seq<RouteStep>) -> int {
    if steps.len() == 0 {
        time
    } else {
        steps.last().arrival_time as int
    }
}

pub open spec fn chain_end_money(money: int, steps: Seq<RouteStep>) -> int {
    if steps.len() == 0 {
        money
    } else {
        steps.last().money_earned as int
    }
}

pub open spec fn chain_end_dist(dist: int, steps: Seq<RouteStep>) -> int {
    if steps.len() == 0 {
        dist
    } else {
        steps.last().distance_milli as int
    }
}

/// The steps form a chain from the request's start location, start time
/// and an empty ledger.
pub open spec fn chain_ok(
    g: LoadGraph,
    cfg: EngineConfig,
    req: TripRequest,
    steps: Seq<RouteStep>,
) -> bool {
    chain_ok_from(g, cfg, req, req.start, req.start_time as int, 0, 0, steps)
}

/// No location is visited twice: the destinations of the steps are
/// pairwise distinct and none of them is the start.
pub open spec fn keys_distinct(req: TripRequest, steps: Seq<RouteStep>) -> bool {
    &&& forall|i: int, j: int|
        0 <= i < j < steps.len() ==> (#[trigger] steps[i]).destination.spec_key() != (
        #[trigger] steps[j]).destination.spec_key()
    &&& forall|i: int|
        0 <= i < steps.len() ==> (#[trigger] steps[i]).destination.spec_key()
            != req.start.spec_key()
}

/// A valid answer to a request: a cycle-free chain of edges from the
/// start, each arrival before the deadline.
pub open spec fn route_ok(
    g: LoadGraph,
    cfg: EngineConfig,
    req: TripRequest,
    steps: Seq<RouteStep>,
) -> bool {
    chain_ok(g, cfg, req, steps) && keys_distinct(req, steps)
}

/// Appending a step that traverses an edge out of a chain's end keeps the
/// chain valid.
pub proof fn lemma_chain_push(
    g: LoadGraph,
    cfg: EngineConfig,
    req: TripRequest,
    loc: Coord,
    time: int,
    money: int,
    dist: int,
    steps: Seq<RouteStep>,
    st: RouteStep,
)
    requires
        chain_ok_from(g, cfg, req, loc, time, money, dist, steps),
        step_from(g, cfg, req, chain_end_loc(loc, steps), chain_end_time(time, steps),
            chain_end_money(money, steps), chain_end_dist(dist, steps), st),
    ensures
        chain_ok_from(g, cfg, req, loc, time, money, dist, steps.push(st)),
    decreases steps.len(),
{
    let stepped = steps.push(st);
    assert(stepped.len() == steps.len() + 1);
    if steps.len() == 0 {
        assert(stepped[0] == st);
        assert(stepped.drop_first() =~= Seq::<RouteStep>::empty());
        assert(step_from(g, cfg, req, loc, time, money, dist, stepped[0]));
        assert(chain_ok_from(g, cfg, req, stepped[0].destination, stepped[0].arrival_time as int,
            stepped[0].money_earned as int, stepped[0].distance_milli as int,
            stepped.drop_first()));
    } else {
        assert(steps.drop_first().len() == steps.len() - 1);
        if steps.len() > 1 {
            assert(steps.drop_first().last() == steps.last());
        }
        lemma_chain_push(g, cfg, req, steps[0].destination, steps[0].arrival_time as int,
            steps[0].money_earned as int, steps[0].distance_milli as int, steps.drop_first(), st);
        assert(stepped.drop_first() =~= steps.drop_first().push(st));
        assert(stepped[0] == steps[0]);
        assert(step_from(g, cfg, req, loc, time, money, dist, stepped[0]));
        assert(chain_ok_from(g, cfg, req, stepped[0].destination, stepped[0].arrival_time as int,
            stepped[0].money_earned as int, stepped[0].distance_milli as int,
            stepped.drop_first()));
    }
}

/// Everything a valid chain guarantees step by step: well-formed
/// destinations, arrivals before the deadline, exact accumulation, and
/// therefore monotone money, distance and time.
pub proof fn lemma_chain_facts(
    g: LoadGraph,
    cfg: EngineConfig,
    req: TripRequest,
    loc: Coord,
    time: int,
    money: int,
    dist: int,
    steps: Seq<RouteStep>,
)
    requires
        cfg.wf(),
        0 <= money,
        0 <= dist,
        chain_ok_from(g, cfg, req, loc, time, money, dist, steps),
    ensures
        forall|i: int|
            0 <= i < steps.len() ==> (#[trigger] steps[i]).destination.wf() && steps[i].arrival_time < req.deadline,
        steps.len() > 0 ==> steps[0].money_earned >= money && steps[0].distance_milli >= dist
            && steps[0].arrival_time - time == spec_travel_secs(cfg, steps[0].distance_milli
            - dist),
        forall|i: int|
            0 < i < steps.len() ==> (#[trigger] steps[i]).money_earned >= steps[i - 1].money_earned && steps[i].distance_milli >= steps[i - 1].distance_milli && steps[i].arrival_time - steps[i - 1].arrival_time == spec_travel_secs(cfg, steps[i].distance_milli - steps[i - 1].distance_milli),
        forall|i: int|
            0 < i < steps.len() ==> (#[trigger] steps[i]).arrival_time >= steps[i - 1].arrival_time,
    decreases steps.len(),
{
    if steps.len() > 0 {
        let st = steps[0];
        let i0 = choose|i: int|
            0 <= i < g.adj_map()[loc.spec_key()].len() && #[trigger] step_matches_edge(g, cfg, req,
                loc, time, money, dist, st, i);
        let e = g.adj_map()[loc.spec_key()][i0];
        assert(st.distance_milli - dist == e.distance_milli);
        lemma_div_pos_is_pos((st.distance_milli - dist) * 3600, cfg.speed_mph as int * 1000);
        lemma_chain_facts(g, cfg, req, st.destination, st.arrival_time as int,
            st.money_earned as int, st.distance_milli as int, steps.drop_first());
        assert forall|i: int| 0 < i < steps.len() implies (#[trigger] steps[i]).money_earned
            >= steps[i - 1].money_earned && steps[i].distance_milli >= steps[i - 1].distance_milli
            && steps[i].arrival_time - steps[i - 1].arrival_time == spec_travel_secs(cfg, steps[i].distance_milli - steps[i - 1].distance_milli) && steps[i].arrival_time >= steps[i - 1].arrival_time by {
            assert(steps[i] == steps.drop_first()[i - 1]);
            if i > 1 {
                assert(steps[i - 1] == steps.drop_first()[i - 2]);
            }
            if i == 1 {
                let d1 = steps.drop_first();
                assert(d1.len() > 0 && d1[0] == steps[1]);
            }
        }
        assert forall|i: int| 0 <= i < steps.len() implies (#[trigger] steps[i]).destination.wf()
            && steps[i].arrival_time < req.deadline by {
            if i > 0 {
                assert(steps[i] == steps.drop_first()[i - 1]);
            }
        }
    }
}

/// Along any valid route, money earned and distance covered never
/// decrease, arrival times never decrease, and each step's arrival is
/// exactly the previous arrival plus the travel time of the edge's
/// distance; the time strictly increases whenever that travel time is at
/// least one second.
pub proof fn lemma_route_monotonic(
    g: LoadGraph,
    cfg: EngineConfig,
    req: TripRequest,
    steps: Seq<RouteStep>,
)
    requires
        cfg.wf(),
        route_ok(g, cfg, req, steps),
    ensures
        forall|i: int|
            0 < i < steps.len() ==> (#[trigger] steps[i]).money_earned >= steps[i - 1].money_earned && steps[i].distance_milli >= steps[i - 1].distance_milli && steps[i].arrival_time - steps[i - 1].arrival_time == spec_travel_secs(cfg, steps[i].distance_milli - steps[i - 1].distance_milli),
        forall|i: int|
            0 < i < steps.len() ==> (#[trigger] steps[i]).arrival_time >= steps[i - 1].arrival_time,
        forall|i: int|
            0 < i < steps.len() && spec_travel_secs(cfg, (#[trigger] steps[i]).distance_milli
                - steps[i - 1].distance_milli) > 0 ==> steps[i].arrival_time > steps[
                i - 1].arrival_time,
        steps.len() > 0 ==> steps[0].money_earned >= 0 && steps[0].arrival_time - req.start_time
            == spec_travel_secs(cfg, steps[0].distance_milli as int),
{
    lemma_chain_facts(g, cfg, req, req.start, req.start_time as int, 0, 0, steps);
}

/// No step of a valid route arrives after the deadline.
pub proof fn lemma_route_respects_deadline(
    g: LoadGraph,
    cfg: EngineConfig,
    req: TripRequest,
    steps: Seq<RouteStep>,
)
    requires
        cfg.wf(),
        route_ok(g, cfg, req, steps),
    ensures
        forall|i: int| 0 <= i < steps.len() ==> (#[trigger] steps[i]).arrival_time < req.deadline,
{
    lemma_chain_facts(g, cfg, req, req.start, req.start_time as int, 0, 0, steps);
}

/// A truck state reached during the search: the location, the ledger so
/// far, the score, the predecessor's location, the load that got here,
/// and (for the proof only) the whole chain of steps that led here.
#[derive(Clone, Copy)]
pub struct SearchNode {
    pub location: Coord,
    pub arrival_time: i64,
    pub money_earned: u64,
    pub distance_milli: u64,
    pub net_profit_milli: i128,
    pub parent: Option<Coord>,
    pub load_id: u64,
    pub path: Ghost<Seq<RouteStep>>,
}

/// The location a node's chain came from: the start for a single-step
/// chain, else the destination of the next-to-last step.
pub open spec fn spec_prev_loc(req: TripRequest, path: Seq<RouteStep>) -> Coord {
    if path.len() <= 1 {
        req.start
    } else {
        path[path.len() - 2].destination
    }
}

/// A node is internally consistent: its ghost chain is a valid route and
/// its fields are exactly the end state of that chain.
pub open spec fn node_wf(
    g: LoadGraph,
    cfg: EngineConfig,
    req: TripRequest,
    n: SearchNode,
) -> bool {
    &&& route_ok(g, cfg, req, n.path@)
    &&& n.location.wf()
    &&& n.arrival_time >= req.start_time
    &&& if n.path@.len() == 0 {
        &&& n.location == req.start
        &&& n.arrival_time == req.start_time
        &&& n.money_earned == 0
        &&& n.distance_milli == 0
        &&& n.parent is None
    } else {
        let last = n.path@.last();
        &&& n.location == last.destination
        &&& n.arrival_time == last.arrival_time
        &&& n.money_earned == last.money_earned
        &&& n.distance_milli == last.distance_milli
        &&& n.net_profit_milli == last.net_profit_milli
        &&& n.load_id == last.load_id
        &&& n.parent == Some(spec_prev_loc(req, n.path@))
    }
}

/// The node's predecessor is recorded in the closed map, with exactly the
/// node's chain minus its last step.
pub open spec fn node_linked(
    req: TripRequest,
    closed: Map<u64, SearchNode>,
    n: SearchNode,
) -> bool {
    n.path@.len() == 0 || {
        let p = spec_prev_loc(req, n.path@);
        &&& closed.contains_key(p.spec_key())
        &&& closed[p.spec_key()].path@ == n.path@.drop_last()
    }
}

/// What holds of every node waiting in the frontier: it is consistent and
/// linked, it has at least one step, all its earlier destinations are
/// already closed, and its own location is a graph location.
pub open spec fn frontier_node_inv(
    g: LoadGraph,
    cfg: EngineConfig,
    req: TripRequest,
    closed: Map<u64, SearchNode>,
    n: SearchNode,
) -> bool {
    &&& node_wf(g, cfg, req, n)
    &&& node_linked(req, closed, n)
    &&& n.path@.len() >= 1
    &&& forall|i: int|
        0 <= i < n.path@.len() - 1 ==> closed.contains_key((#[trigger] n.path@[i]).destination.spec_key())
    &&& g.location_set().contains(n.location.spec_key())
}

/// What holds of every entry of the closed map: the entry is consistent
/// and linked and sits under its own location's key.
pub open spec fn closed_inv(
    g: LoadGraph,
    cfg: EngineConfig,
    req: TripRequest,
    closed: Map<u64, SearchNode>,
) -> bool {
    forall|k: u64| #[trigger]
        closed.contains_key(k) ==> {
            let n = closed[k];
            &&& node_wf(g, cfg, req, n)
            &&& node_linked(req, closed, n)
            &&& n.location.spec_key() == k
        }
}

/// The frontier's ordering: more money wins, and among equal earnings the
/// earlier arrival wins.
pub open spec fn spec_better(a: SearchNode, b: SearchNode) -> bool {
    a.money_earned > b.money_earned || (a.money_earned == b.money_earned && a.arrival_time
        < b.arrival_time)
}

/// Compares two nodes by the frontier's ordering.
pub fn node_better(a: &SearchNode, b: &SearchNode) -> (r: bool)
    ensures
        r == spec_better(*a, *b),
{
    a.money_earned > b.money_earned || (a.money_earned == b.money_earned && a.arrival_time
        < b.arrival_time)
}

/// There is an edge out of the start that pays something, leads away from
/// the start, and arrives before the deadline: on such a graph the search
/// must return a non-empty route.
pub open spec fn has_positive_first_edge(
    g: LoadGraph,
    cfg: EngineConfig,
    req: TripRequest,
) -> bool {
    &&& g.adj_map().contains_key(req.start.spec_key())
    &&& exists|i: int|
        0 <= i < g.adj_map()[req.start.spec_key()].len() && #[trigger] positive_first_edge_at(g,
            cfg, req, i)
}

/// Edge number `i` out of the start pays something, leads away from the
/// start, and arrives before the deadline.
pub open spec fn positive_first_edge_at(
    g: LoadGraph,
    cfg: EngineConfig,
    req: TripRequest,
    i: int,
) -> bool {
    let e = g.adj_map()[req.start.spec_key()][i];
    &&& e.amount > 0
    &&& e.dest.spec_key() != req.start.spec_key()
    &&& req.start_time + spec_travel_secs(cfg, e.distance_milli as int) < req.deadline
}

/// Removes and returns a node the frontier's ordering ranks highest;
/// among equally ranked nodes the first one found wins.
#[verifier::loop_isolation(false)]
fn pop_best(frontier: &mut Vec<SearchNode>) -> (n: SearchNode)
    requires
        old(frontier).len() > 0,
    ensures
        final(frontier)@.len() == old(frontier)@.len() - 1,
        exists|i: int| 0 <= i < old(frontier)@.len() && n == old(frontier)@[i],
        forall|j: int| 0 <= j < old(frontier)@.len() ==> !spec_better(#[trigger] old(
            frontier,
        )@[j], n),
        forall|j: int|
            0 <= j < final(frontier)@.len() ==> exists|i: int|
                0 <= i < old(frontier)@.len() && #[trigger] final(frontier)@[j] == old(
                frontier)@[i],
{
    let mut best_i: usize = 0;
    let mut i: usize = 1;
    while i < frontier.len()
        invariant
            best_i < i,
            1 <= i <= frontier.len(),
            forall|j: int| 0 <= j < i ==> !spec_better(#[trigger] frontier@[j], frontier@[best_i as int]),
        decreases frontier.len() - i,
    {
        if node_better(&frontier[i], &frontier[best_i]) {
            best_i = i;
        }
        i = i + 1;
    }
    frontier.swap_remove(best_i)
}

/// Examines every edge out of the just-closed node `cur`: each candidate
/// successor is pruned if its destination is already closed or if it
/// would arrive at or after the deadline (or if a ledger sum would not
/// fit its machine word), and is otherwise pushed onto the frontier; the
/// best node seen is updated with every pushed candidate.
#[verifier::loop_isolation(false)]
fn expand_node(
    g: &LoadGraph,
    cfg: &EngineConfig,
    req: &TripRequest,
    cur: &SearchNode,
    closed: &HashMap<u64, SearchNode>,
    frontier: &mut Vec<SearchNode>,
    best: &mut SearchNode,
)
    requires
        g.wf(),
        cfg.wf(),
        req.wf(),
        node_wf(*g, *cfg, *req, *cur),
        closed@.contains_key(cur.location.spec_key()),
        closed@[cur.location.spec_key()] == *cur,
        closed@.contains_key(req.start.spec_key()),
        forall|i: int|
            0 <= i < cur.path@.len() ==> closed@.contains_key((#[trigger] cur.path@[
            i]).destination.spec_key()),
        forall|j: int|
            0 <= j < old(frontier)@.len() ==> frontier_node_inv(*g, *cfg, *req, closed@,
                #[trigger] old(frontier)@[j]),
        node_wf(*g, *cfg, *req, *old(best)),
        node_linked(*req, closed@, *old(best)),
        old(best).path@.len() > 0 ==> old(best).money_earned > 0,
    ensures
        final(frontier)@.len() >= old(frontier)@.len(),
        forall|j: int|
            0 <= j < old(frontier)@.len() ==> #[trigger] final(frontier)@[j] == old(frontier)@[j],
        forall|j: int|
            0 <= j < final(frontier)@.len() ==> frontier_node_inv(*g, *cfg, *req, closed@,
                #[trigger] final(frontier)@[j]),
        node_wf(*g, *cfg, *req, *final(best)),
        node_linked(*req, closed@, *final(best)),
        final(best).money_earned >= old(best).money_earned,
        final(best).path@.len() > 0 ==> final(best).money_earned > 0,
        (cur.path@.len() == 0 && has_positive_first_edge(*g, *cfg, *req) && (forall|k: u64|
            closed@.contains_key(k) ==> k == req.start.spec_key())) ==> final(
        best).money_earned > 0,
{
    let ckey = cur.location.key();
    let edges_opt = g.edges_at(ckey);
    match edges_opt {
        None => {
            proof {
                if cur.path@.len() == 0 && has_positive_first_edge(*g, *cfg, *req) {
                    assert(cur.location == req.start);
                    assert(g.adj_map().contains_key(req.start.spec_key()));
                    assert(false);
                }
            }
        },
        Some(edges) => {
            let n_edges = edges.len();
            let mut i: usize = 0;
            while i < n_edges
                invariant
                    n_edges == edges@.len(),
                    i <= n_edges,
                    edges@ == g.adj_map()[cur.location.spec_key()],
                    frontier@.len() >= old(frontier)@.len(),
                    forall|j: int|
                        0 <= j < old(frontier)@.len() ==> #[trigger] frontier@[j] == old(
                        frontier)@[j],
                    forall|j: int|
                        0 <= j < frontier@.len() ==> frontier_node_inv(*g, *cfg, *req, closed@,
                            #[trigger] frontier@[j]),
                    node_wf(*g, *cfg, *req, *best),
                    node_linked(*req, closed@, *best),
                    best.money_earned >= old(best).money_earned,
                    best.path@.len() > 0 ==> best.money_earned > 0,
                    (cur.path@.len() == 0 && (forall|k: u64|
                        closed@.contains_key(k) ==> k == req.start.spec_key()) && exists|j: int|
                        0 <= j < i && #[trigger] positive_first_edge_at(*g, *cfg, *req, j))
                        ==> best.money_earned > 0,
                decreases n_edges - i,
            {
                let e = &edges[i];
                proof {
                    assert(e.wf() && g.location_set().contains(e.dest.spec_key()));
                }
                let tt: u64 = travel_secs(cfg, e.distance_milli);
                let new_money_128: u128 = cur.money_earned as u128 + e.amount as u128;
                let new_dist_128: u128 = cur.distance_milli as u128 + e.distance_milli as u128;
                let arrival_128: i128 = cur.arrival_time as i128 + tt as i128;
                if new_money_128 <= u64::MAX as u128 && new_dist_128 <= u64::MAX as u128
                    && arrival_128 < req.deadline as i128 {
                    let new_money: u64 = new_money_128 as u64;
                    let new_dist: u64 = new_dist_128 as u64;
                    let arrival: i64 = arrival_128 as i64;
                    let dkey = e.dest.key();
                    if !closed.contains_key(&dkey) {
                        let net: i128 = net_profit_milli(cfg, new_money, new_dist);
                        let st = RouteStep {
                            load_id: e.load_id,
                            destination: e.dest,
                            arrival_time: arrival,
                            money_earned: new_money,
                            distance_milli: new_dist,
                            net_profit_milli: net,
                        };
                        let child = SearchNode {
                            location: e.dest,
                            arrival_time: arrival,
                            money_earned: new_money,
                            distance_milli: new_dist,
                            net_profit_milli: net,
                            parent: Some(cur.location),
                            load_id: e.load_id,
                            path: Ghost(cur.path@.push(st)),
                        };
                        proof {
                            assert(step_matches_edge(*g, *cfg, *req, cur.location,
                                cur.arrival_time as int, cur.money_earned as int,
                                cur.distance_milli as int, st, i as int));
                            assert(step_from(*g, *cfg, *req, cur.location,
                                cur.arrival_time as int, cur.money_earned as int,
                                cur.distance_milli as int, st));
                            assert(chain_end_loc(req.start, cur.path@) == cur.location);
                            lemma_chain_push(*g, *cfg, *req, req.start, req.start_time as int, 0,
                                0, cur.path@, st);
                            assert forall|a: int, b: int| 0 <= a < b < child.path@.len() implies (
                            #[trigger] child.path@[a]).destination.spec_key() != (
                            #[trigger] child.path@[b]).destination.spec_key() by {
                                if b < child.path@.len() - 1 {
                                    assert(child.path@[a] == cur.path@[a]);
                                    assert(child.path@[b] == cur.path@[b]);
                                } else {
                                    assert(child.path@[b] == st);
                                    assert(child.path@[a] == cur.path@[a]);
                                    assert(closed@.contains_key(
                                        cur.path@[a].destination.spec_key()));
                                }
                            }
                            assert(keys_distinct(*req, child.path@));
                            assert(child.path@.last() == st);
                            assert(child.path@.drop_last() =~= cur.path@);
                            if cur.path@.len() > 0 {
                                assert(child.path@[child.path@.len() - 2] == cur.path@.last());
                                assert(spec_prev_loc(*req, child.path@) == cur.location);
                            } else {
                                assert(spec_prev_loc(*req, child.path@) == req.start);
                                assert(cur.location == req.start);
                            }
                            assert(node_wf(*g, *cfg, *req, child));
                            assert(node_linked(*req, closed@, child));
                            assert(frontier_node_inv(*g, *cfg, *req, closed@, child));
                        }
                        if node_better(&child, best) {
                            proof {
                                if child.money_earned == best.money_earned {
                                    assert(best.path@.len() > 0 || best.arrival_time
                                        == req.start_time);
                                    assert(child.arrival_time >= req.start_time);
                                }
                            }
                            *best = child;
                        }
                        frontier.push(child);
                        proof {
                            if cur.path@.len() == 0 && positive_first_edge_at(*g, *cfg, *req,
                                i as int) {
                                assert(child.money_earned > 0);
                                assert(best.money_earned >= child.money_earned);
                            }
                        }
                    } else {
                        proof {
                            if cur.path@.len() == 0 && (forall|k: u64|
                                closed@.contains_key(k) ==> k == req.start.spec_key())
                                && positive_first_edge_at(*g, *cfg, *req, i as int) {
                                assert(dkey == req.start.spec_key());
                                assert(false);
                            }
                        }
                    }
                } else {
                    proof {
                        if cur.path@.len() == 0 && positive_first_edge_at(*g, *cfg, *req,
                            i as int) {
                            assert(cur.money_earned == 0 && cur.distance_milli == 0);
                            assert(new_money_128 <= u32::MAX as u128);
                            assert(new_dist_128 <= EDGE_DIST_MAX_MILLI as u128);
                            assert(arrival_128 < req.deadline as i128);
                            assert(false);
                        }
                    }
                }
                i = i + 1;
            }
        },
    }
}

/// Walks the parent links of the best node back to the start through the
/// closed map, collecting one step per link, and returns the steps in
/// start-to-finish order: exactly the best node's chain.
#[verifier::loop_isolation(false)]
#[verifier::rlimit(60)]
fn reconstruct_route(
    g: &LoadGraph,
    cfg: &EngineConfig,
    req: &TripRequest,
    closed: &HashMap<u64, SearchNode>,
    best: &SearchNode,
) -> (route: Vec<RouteStep>)
    requires
        cfg.wf(),
        req.wf(),
        closed_inv(*g, *cfg, *req, closed@),
        node_wf(*g, *cfg, *req, *best),
        node_linked(*req, closed@, *best),
    ensures
        route@ == best.path@,
{
    let mut rev: Vec<RouteStep> = Vec::new();
    let mut cur: SearchNode = *best;
    proof {
        assert(best.path@.take(best.path@.len() as int) =~= best.path@);
    }
    while cur.parent.is_some()
        invariant
            node_wf(*g, *cfg, *req, cur),
            node_linked(*req, closed@, cur),
            rev@.len() + cur.path@.len() == best.path@.len(),
            cur.path@ == best.path@.take(cur.path@.len() as int),
            forall|j: int|
                0 <= j < rev@.len() ==> #[trigger] rev@[j] == best.path@[best.path@.len() - 1 - j],
        decreases cur.path@.len(),
    {
        proof {
            assert(cur.path@.len() > 0);
        }
        let st = RouteStep {
            load_id: cur.load_id,
            destination: cur.location,
            arrival_time: cur.arrival_time,
            money_earned: cur.money_earned,
            distance_milli: cur.distance_milli,
            net_profit_milli: cur.net_profit_milli,
        };
        proof {
            assert(st == cur.path@.last());
            assert(cur.path@.last() == best.path@[cur.path@.len() - 1]);
        }
        rev.push(st);
        let p: Coord = match cur.parent {
            Some(p) => p,
            None => {
                proof {
                    assert(false);
                }
                req.start
            },
        };
        proof {
            assert(p == spec_prev_loc(*req, cur.path@));
            if cur.path@.len() <= 1 {
                assert(p == req.start);
            } else {
                assert(p == cur.path@[cur.path@.len() - 2].destination);
                assert(keys_distinct(*req, cur.path@));
                assert(route_ok(*g, *cfg, *req, cur.path@));
                lemma_chain_facts(*g, *cfg, *req, req.start, req.start_time as int, 0, 0,
                    cur.path@);
            }
            assert(p.wf());
        }
        let pkey = p.key();
        let nxt: SearchNode = match closed.get(&pkey) {
            Some(m) => *m,
            None => {
                proof {
                    assert(closed@.contains_key(pkey));
                    assert(false);
                }
                *best
            },
        };
        proof {
            assert(nxt == closed@[pkey]);
            assert(nxt.path@ == cur.path@.drop_last());
            assert(nxt.path@ =~= best.path@.take(nxt.path@.len() as int));
        }
        cur = nxt;
    }
    proof {
        assert(cur.path@.len() == 0);
        assert(rev@.len() == best.path@.len());
    }
    let n = rev.len();
    let mut route: Vec<RouteStep> = Vec::new();
    let mut i: usize = 0;
    while i < n
        invariant
            i <= n,
            n == rev@.len(),
            n == best.path@.len(),
            forall|j: int|
                0 <= j < rev@.len() ==> #[trigger] rev@[j] == best.path@[best.path@.len() - 1 - j],
            route@.len() == i,
            forall|j: int| 0 <= j < i ==> #[trigger] route@[j] == best.path@[j],
        decreases n - i,
    {
        route.push(rev[n - 1 - i]);
        i = i + 1;
    }
    proof {
        assert(route@ =~= best.path@);
    }
    route
}

/// Closing a fresh key keeps every invariant of the search: existing
/// closed entries, waiting frontier nodes and the best node stay
/// consistent and linked, and the newly closed node's whole chain of
/// destinations is now closed.
proof fn lemma_close_fresh(
    g: LoadGraph,
    cfg: EngineConfig,
    req: TripRequest,
    pre: Map<u64, SearchNode>,
    post: Map<u64, SearchNode>,
    cur: SearchNode,
    ckey: u64,
    fsnap: Seq<SearchNode>,
    best: SearchNode,
)
    requires
        closed_inv(g, cfg, req, pre),
        !pre.contains_key(ckey),
        post == pre.insert(ckey, cur),
        cur.location.spec_key() == ckey,
        node_wf(g, cfg, req, cur),
        node_linked(req, pre, cur),
        cur.path@.len() >= 1,
        forall|i: int|
            0 <= i < cur.path@.len() - 1 ==> pre.contains_key((#[trigger] cur.path@[
            i]).destination.spec_key()),
        forall|j: int|
            0 <= j < fsnap.len() ==> frontier_node_inv(g, cfg, req, pre, #[trigger] fsnap[j]),
        node_wf(g, cfg, req, best),
        node_linked(req, pre, best),
    ensures
        closed_inv(g, cfg, req, post),
        forall|j: int|
            0 <= j < fsnap.len() ==> frontier_node_inv(g, cfg, req, post, #[trigger] fsnap[j]),
        node_linked(req, post, best),
        node_linked(req, post, cur),
        post.contains_key(ckey),
        post[ckey] == cur,
        forall|i: int|
            0 <= i < cur.path@.len() ==> post.contains_key((#[trigger] cur.path@[
            i]).destination.spec_key()),
{
    assert forall|k: u64| #[trigger] post.contains_key(k) implies {
        let n = post[k];
        &&& node_wf(g, cfg, req, n)
        &&& node_linked(req, post, n)
        &&& n.location.spec_key() == k
    } by {
        if k != ckey {
            assert(pre.contains_key(k));
            assert(post[k] == pre[k]);
            assert(node_linked(req, pre, pre[k]));
        }
    }
    assert forall|j: int| 0 <= j < fsnap.len() implies frontier_node_inv(g, cfg, req, post,
        #[trigger] fsnap[j]) by {
        assert(frontier_node_inv(g, cfg, req, pre, fsnap[j]));
    }
    assert forall|i: int| 0 <= i < cur.path@.len() implies post.contains_key((
    #[trigger] cur.path@[i]).destination.spec_key()) by {
        if i == cur.path@.len() - 1 {
            assert(cur.path@[i] == cur.path@.last());
            assert(cur.path@.last().destination == cur.location);
        }
    }
}

/// Answers one trip request by best-first search over the load graph.
///
/// The returned steps are a real chain of edges in the graph from the
/// request's start location and time: money, distance and time accumulate
/// exactly edge by edge, every arrival is before the deadline, no
/// location repeats (each location is finalized at most once per search),
/// and a start with no outgoing edges, or none usable before the
/// deadline, yields the empty route. Whenever some edge out of the start
/// pays something, leads away from the start and arrives in time, the
/// route is non-empty. The search is greedy best-first by money earned
/// (ties to the earlier arrival): it finalizes each location the first
/// time it pops it, so it does not promise a globally optimal chain.
#[verifier::loop_isolation(false)]
#[verifier::rlimit(100)]
pub fn search(g: &LoadGraph, cfg: &EngineConfig, req: &TripRequest) -> (route: Vec<RouteStep>)
    requires
        g.wf(),
        cfg.wf(),
        req.wf(),
    ensures
        route_ok(*g, *cfg, *req, route@),
        route@.len() > 0 ==> route@.last().money_earned > 0,
        has_positive_first_edge(*g, *cfg, *req) ==> route@.len() > 0,
{
    let skey = req.start.key();
    let start_node = SearchNode {
        location: req.start,
        arrival_time: req.start_time,
        money_earned: 0,
        distance_milli: 0,
        net_profit_milli: 0,
        parent: None,
        load_id: 0,
        path: Ghost(Seq::<RouteStep>::empty()),
    };
    let mut closed: HashMap<u64, SearchNode> = HashMap::new();
    let mut frontier: Vec<SearchNode> = Vec::new();
    let mut best: SearchNode = start_node;
    proof {
        assert(node_wf(*g, *cfg, *req, start_node));
    }
    closed.insert(skey, start_node);
    expand_node(g, cfg, req, &start_node, &closed, &mut frontier, &mut best);
    let ghost universe: Set<u64> = g.location_set().insert(req.start.spec_key());
    proof {
        lemma_len_subset(closed@.dom(), universe);
    }
    while frontier.len() > 0
        invariant
            closed_inv(*g, *cfg, *req, closed@),
            forall|j: int|
                0 <= j < frontier@.len() ==> frontier_node_inv(*g, *cfg, *req, closed@,
                    #[trigger] frontier@[j]),
            node_wf(*g, *cfg, *req, best),
            node_linked(*req, closed@, best),
            closed@.contains_key(req.start.spec_key()),
            universe == g.location_set().insert(req.start.spec_key()),
            universe.finite(),
            closed@.dom().subset_of(universe),
            best.path@.len() > 0 ==> best.money_earned > 0,
            has_positive_first_edge(*g, *cfg, *req) ==> best.money_earned > 0,
        decreases universe.len() - closed@.dom().len(), frontier.len(),
    {
        let cur = pop_best(&mut frontier);
        let ckey = cur.location.key();
        if !closed.contains_key(&ckey) {
            let ghost pre = closed@;
            let ghost fsnap = frontier@;
            closed.insert(ckey, cur);
            proof {
                lemma_close_fresh(*g, *cfg, *req, pre, closed@, cur, ckey, fsnap, best);
                assert(closed@.dom() =~= pre.dom().insert(ckey));
                lemma_len_subset(closed@.dom(), universe);
            }
            expand_node(g, cfg, req, &cur, &closed, &mut frontier, &mut best);
        }
    }
    proof {
        if has_positive_first_edge(*g, *cfg, *req) {
            assert(best.money_earned > 0);
            assert(best.path@.len() > 0);
        }
        if best.path@.len() > 0 {
            assert(best.money_earned == best.path@.last().money_earned);
        }
    }
    reconstruct_route(g, cfg, req, &closed, &best)
}

/// The answer record for one trip request: who asked, and the loads to
/// take, in traversal order.
#[derive(Clone, Debug)]
pub struct RouteResult {
    pub trip_id: u64,
    pub load_ids: Vec<u64>,
}

/// The load identifiers of a route, in traversal order.
pub fn route_load_ids(route: &Vec<RouteStep>) -> (ids: Vec<u64>)
    ensures
        ids@ == route@.map_values(|s: RouteStep| s.load_id),
{
    let n = route.len();
    let mut ids: Vec<u64> = Vec::new();
    let mut i: usize = 0;
    while i < n
        invariant
            i <= n,
            n == route@.len(),
            ids@.len() == i,
            forall|j: int| 0 <= j < i ==> #[trigger] ids@[j] == route@[j].load_id,
        decreases n - i,
    {
        ids.push(route[i].load_id);
        i = i + 1;
    }
    proof {
        assert(ids@ =~= route@.map_values(|s: RouteStep| s.load_id));
    }
    ids
}

/// Answers one trip request and wraps the chosen load identifiers into
/// the output record for that requester.
pub fn plan_trip(g: &LoadGraph, cfg: &EngineConfig, req: &TripRequest) -> (res: RouteResult)
    requires
        g.wf(),
        cfg.wf(),
        req.wf(),
    ensures
        res.trip_id == req.trip_id,
        exists|steps: Seq<RouteStep>|
            route_ok(*g, *cfg, *req, steps) && res.load_ids@ == steps.map_values(
                |s: RouteStep| s.load_id),
        has_positive_first_edge(*g, *cfg, *req) ==> res.load_ids@.len() > 0,
{
    let route = search(g, cfg, req);
    let ids = route_load_ids(&route);
    proof {
        assert(route_ok(*g, *cfg, *req, route@) && ids@ == route@.map_values(
            |s: RouteStep| s.load_id));
    }
    RouteResult { trip_id: req.trip_id, load_ids: ids }
}

} // verus!
