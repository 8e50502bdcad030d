//! The load graph: unique locations and priced directed edges.
//!
//! Each load record becomes one directed edge from its origin coordinate
//! to its destination coordinate, priced with the great-circle distance
//! between the two; both endpoints are registered as graph locations. The
//! adjacency map and the node set are a pure function of the load list
//! and the sphere radius, so building twice gives the same graph.

use vstd::prelude::*;
use std::collections::HashMap;
use std::collections::HashSet;
use crate::coord::Coord;
use crate::distance::{
    spec_distance_milli_miles, geodesic_distance_milli_miles, EDGE_DIST_MAX_MILLI, RADIUS_LIMIT_M,
};

verus! {

broadcast use vstd::std_specs::hash::group_hash_axioms;

/// One freight haul on offer: an identifier, two endpoints, a payout in
/// whole currency units and a pickup time in seconds.
#[derive(Clone, Copy, Debug, PartialEq, Eq, Structural)]
pub struct Load {
    pub load_id: u64,
    pub origin: Coord,
    pub dest: Coord,
    pub amount: u32,
    pub pickup_time: i64,
}

impl Load {
    /// A load is well formed when both of its endpoints are.
    pub open spec fn wf(self) -> bool {
        self.origin.wf() && self.dest.wf()
    }
}

/// A directed, priced arc of the graph, derived from one load.
#[derive(Clone, Copy, Debug, PartialEq, Eq, Structural)]
pub struct Edge {
    pub load_id: u64,
    pub dest: Coord,
    pub distance_milli: u64,
    pub amount: u32,
}

impl Edge {
    /// An edge is well formed when its destination is a legal coordinate
    /// and its distance is within the bound the distance function promises.
    pub open spec fn wf(self) -> bool {
        self.dest.wf() && self.distance_milli <= EDGE_DIST_MAX_MILLI
    }
}

/// The build-once, read-many graph: an adjacency map from a location's
/// packed key to its outgoing edges, and the set of all location keys.
pub struct LoadGraph {
    pub adj: HashMap<u64, Vec<Edge>>,
    pub locations: HashSet<u64>,
}

impl LoadGraph {
    /// The adjacency map as a mathematical map from keys to edge sequences.
    pub open spec fn adj_map(self) -> Map<u64, Seq<Edge>> {
        Map::new(|k: u64| self.adj@.contains_key(k), |k: u64| self.adj@[k]@)
    }

    /// The set of all location keys.
    pub open spec fn location_set(self) -> Set<u64> {
        self.locations@
    }

    /// Well-formedness: every edge is well formed and leads to a
    /// registered location, every origin is registered, and the location
    /// set is finite.
    pub open spec fn wf(self) -> bool {
        &&& self.location_set().finite()
        &&& forall|k: u64| #[trigger]
            self.adj_map().contains_key(k) ==> self.location_set().contains(k)
        &&& forall|k: u64, i: int|
            self.adj_map().contains_key(k) && 0 <= i < self.adj_map()[k].len() ==> {
                let e = #[trigger] self.adj_map()[k][i];
                e.wf() && self.location_set().contains(e.dest.spec_key())
            }
    }

    /// The outgoing edges of the location with the given key, if any.
    pub fn edges_at(&self, key: u64) -> (r: Option<&Vec<Edge>>)
        ensures
            match r {
                Some(v) => self.adj_map().contains_key(key) && v@ == self.adj_map()[key],
                None => !self.adj_map().contains_key(key),
            },
    {
        self.adj.get(&key)
    }
}

/// One load folded into the adjacency map: its edge is appended under the
/// origin's key, whose entry is created if absent.
pub open spec fn spec_fold_adj(m: Map<u64, Seq<Edge>>, radius_m: int, l: Load) -> Map<
    u64,
    Seq<Edge>,
> {
    let k = l.origin.spec_key();
    let e = Edge {
        load_id: l.load_id,
        dest: l.dest,
        distance_milli: spec_distance_milli_miles(radius_m, l.origin, l.dest) as u64,
        amount: l.amount,
    };
    let old_edges = if m.contains_key(k) {
        m[k]
    } else {
        Seq::<Edge>::empty()
    };
    m.insert(k, old_edges.push(e))
}

/// The adjacency map of a load list: the loads folded in, in order.
pub open spec fn spec_adj_of(loads: Seq<Load>, radius_m: int) -> Map<u64, Seq<Edge>>
    decreases loads.len(),
{
    if loads.len() == 0 {
        Map::<u64, Seq<Edge>>::empty()
    } else {
        spec_fold_adj(spec_adj_of(loads.drop_last(), radius_m), radius_m, loads.last())
    }
}

/// The location set of a load list: every origin and destination key.
pub open spec fn spec_locations_of(loads: Seq<Load>) -> Set<u64>
    decreases loads.len(),
{
    if loads.len() == 0 {
        Set::<u64>::empty()
    } else {
        spec_locations_of(loads.drop_last()).insert(loads.last().origin.spec_key()).insert(
            loads.last().dest.spec_key(),
        )
    }
}

/// Builds the graph from a list of loads, pricing each edge with the
/// great-circle distance on a sphere of the given radius. The result is
/// exactly the fold of the loads, so the build is deterministic.
pub fn build_graph(loads: &Vec<Load>, radius_m: u64) -> (g: LoadGraph)
    requires
        forall|i: int| 0 <= i < loads@.len() ==> (#[trigger] loads@[i]).wf(),
        1 <= radius_m <= RADIUS_LIMIT_M,
    ensures
        g.wf(),
        g.adj_map() == spec_adj_of(loads@, radius_m as int),
        g.location_set() == spec_locations_of(loads@),
{
    let mut g = LoadGraph { adj: HashMap::new(), locations: HashSet::new() };
    assert(g.adj_map() =~= spec_adj_of(loads@.take(0), radius_m as int));
    assert(g.location_set() =~= spec_locations_of(loads@.take(0)));
    let n = loads.len();
    for idx in 0..n
        invariant
            n == loads@.len(),
            forall|i: int| 0 <= i < loads@.len() ==> (#[trigger] loads@[i]).wf(),
            1 <= radius_m <= RADIUS_LIMIT_M,
            g.wf(),
            g.adj_map() == spec_adj_of(loads@.take(idx as int), radius_m as int),
            g.location_set() == spec_locations_of(loads@.take(idx as int)),
    {
        let l = &loads[idx];
        let d = geodesic_distance_milli_miles(radius_m, &l.origin, &l.dest);
        let e = Edge { load_id: l.load_id, dest: l.dest, distance_milli: d, amount: l.amount };
        let okey = l.origin.key();
        let dkey = l.dest.key();
        let mut edges: Vec<Edge> = match g.adj.remove(&okey) {
            Some(v) => v,
            None => Vec::new(),
        };
        edges.push(e);
        g.adj.insert(okey, edges);
        g.locations.insert(okey);
        g.locations.insert(dkey);
        proof {
            assert(loads@.take(idx + 1).drop_last() =~= loads@.take(idx as int));
            assert(loads@.take(idx + 1).last() == loads@[idx as int]);
            assert(g.adj_map() =~= spec_fold_adj(
                spec_adj_of(loads@.take(idx as int), radius_m as int),
                radius_m as int,
                loads@[idx as int],
            ));
            assert(g.location_set() =~= spec_locations_of(loads@.take(idx as int)).insert(
                okey,
            ).insert(dkey));
        }
    }
    proof {
        assert(loads@.take(n as int) =~= loads@);
    }
    g
}

/// Building the graph twice from the same load list produces the same
/// adjacency map and the same location set: the graph is a function of
/// its inputs alone.
pub proof fn lemma_build_idempotent(g1: LoadGraph, g2: LoadGraph, loads: Seq<Load>, radius_m: int)
    requires
        g1.adj_map() == spec_adj_of(loads, radius_m),
        g1.location_set() == spec_locations_of(loads),
        g2.adj_map() == spec_adj_of(loads, radius_m),
        g2.location_set() == spec_locations_of(loads),
    ensures
        g1.adj_map() == g2.adj_map(),
        g1.location_set() == g2.location_set(),
{
}

} // verus!
