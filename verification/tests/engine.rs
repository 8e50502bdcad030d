use loadchain::coord::Coord;
use loadchain::distance::EARTH_RADIUS_M;
use loadchain::graph::{build_graph, Load, LoadGraph};
use loadchain::search::{plan_trip, route_load_ids, search, EngineConfig, TripRequest};

fn c(lat_micro: i64, lon_micro: i64) -> Coord {
    Coord { lat_micro, lon_micro }
}

fn load(load_id: u64, origin: Coord, dest: Coord, amount: u32) -> Load {
    Load { load_id, origin, dest, amount, pickup_time: 0 }
}

fn graph_of(loads: &Vec<Load>) -> LoadGraph {
    build_graph(loads, EARTH_RADIUS_M)
}

fn request(start: Coord, start_time: i64, deadline: i64) -> TripRequest {
    TripRequest { trip_id: 7, start, start_time, deadline }
}

const DAY: i64 = 86_400;

#[test]
fn single_affordable_load_is_taken() {
    // one load from the start, within time, with positive net profit
    let loads = vec![load(1, c(0, 0), c(0, 1_000_000), 100)];
    let g = graph_of(&loads);
    let cfg = EngineConfig::stock();
    let route = search(&g, &cfg, &request(c(0, 0), 0, DAY));
    assert_eq!(route_load_ids(&route), vec![1]);
    assert_eq!(route.len(), 1);
    assert_eq!(route[0].money_earned, 100);
    assert_eq!(route[0].distance_milli, 69_093);
    assert_eq!(route[0].arrival_time, 4_522);
    assert_eq!(route[0].net_profit_milli, 72_363);
}

#[test]
fn zero_time_budget_yields_empty_route() {
    // the deadline equals the start time, so the only edge arrives too late
    let loads = vec![load(1, c(0, 0), c(0, 1_000_000), 100)];
    let g = graph_of(&loads);
    let cfg = EngineConfig::stock();
    let route = search(&g, &cfg, &request(c(0, 0), 0, 0));
    assert_eq!(route.len(), 0);
}

#[test]
fn negative_profit_load_is_still_taken() {
    // the payout is below the fuel cost, but it is the only feasible
    // option and the search maximizes money earned, not net profit
    let loads = vec![load(1, c(0, 0), c(0, 1_000_000), 5)];
    let g = graph_of(&loads);
    let cfg = EngineConfig::stock();
    let route = search(&g, &cfg, &request(c(0, 0), 0, DAY));
    assert_eq!(route_load_ids(&route), vec![1]);
    assert_eq!(route[0].net_profit_milli, -22_637);
}

#[test]
fn unmatched_start_yields_empty_route() {
    // the start coordinate matches no origin in the adjacency map
    let loads = vec![load(1, c(0, 0), c(0, 1_000_000), 100)];
    let g = graph_of(&loads);
    let cfg = EngineConfig::stock();
    let route = search(&g, &cfg, &request(c(5_000_000, 5_000_000), 0, DAY));
    assert_eq!(route.len(), 0);
}

#[test]
fn chain_of_two_loads_accumulates() {
    let loads = vec![
        load(1, c(0, 0), c(0, 1_000_000), 100),
        load(2, c(0, 1_000_000), c(0, 2_000_000), 50),
    ];
    let g = graph_of(&loads);
    let cfg = EngineConfig::stock();
    let route = search(&g, &cfg, &request(c(0, 0), 0, DAY));
    assert_eq!(route_load_ids(&route), vec![1, 2]);
    assert_eq!(route[0].money_earned, 100);
    assert_eq!(route[1].money_earned, 150);
    // money, distance and time never decrease along the route
    assert!(route[1].distance_milli >= route[0].distance_milli);
    assert!(route[1].arrival_time >= route[0].arrival_time);
}

#[test]
fn a_closed_location_is_never_reentered() {
    // the two loads form a cycle; the start is finalized first, so the
    // way back is pruned and the route visits each location once
    let loads = vec![
        load(1, c(0, 0), c(0, 1_000_000), 100),
        load(2, c(0, 1_000_000), c(0, 0), 80),
    ];
    let g = graph_of(&loads);
    let cfg = EngineConfig::stock();
    let route = search(&g, &cfg, &request(c(0, 0), 0, DAY));
    assert_eq!(route_load_ids(&route), vec![1]);
}

#[test]
fn equal_earnings_prefer_earlier_arrival() {
    // both loads pay the same; the shorter one arrives earlier and wins
    let loads = vec![
        load(1, c(0, 0), c(0, 2_000_000), 100),
        load(2, c(0, 0), c(0, 1_000_000), 100),
    ];
    let g = graph_of(&loads);
    let cfg = EngineConfig::stock();
    let route = search(&g, &cfg, &request(c(0, 0), 0, DAY));
    assert_eq!(route_load_ids(&route), vec![2]);
}

#[test]
fn richer_chain_beats_single_edge() {
    // one branch pays 100 once; the other pays 60 twice
    let loads = vec![
        load(1, c(0, 0), c(0, 1_000_000), 100),
        load(2, c(0, 0), c(1_000_000, 0), 60),
        load(3, c(1_000_000, 0), c(2_000_000, 0), 60),
    ];
    let g = graph_of(&loads);
    let cfg = EngineConfig::stock();
    let route = search(&g, &cfg, &request(c(0, 0), 0, DAY));
    assert_eq!(route_load_ids(&route), vec![2, 3]);
    assert_eq!(route[1].money_earned, 120);
}

#[test]
fn deadline_cuts_a_chain_short() {
    // the first hop fits in the time budget, the second does not
    let loads = vec![
        load(1, c(0, 0), c(0, 1_000_000), 100),
        load(2, c(0, 1_000_000), c(0, 2_000_000), 50),
    ];
    let g = graph_of(&loads);
    let cfg = EngineConfig::stock();
    let route = search(&g, &cfg, &request(c(0, 0), 0, 5_000));
    assert_eq!(route_load_ids(&route), vec![1]);
    assert!(route[0].arrival_time < 5_000);
}

#[test]
fn empty_load_list_yields_empty_route() {
    let loads: Vec<Load> = vec![];
    let g = graph_of(&loads);
    let cfg = EngineConfig::stock();
    let route = search(&g, &cfg, &request(c(0, 0), 0, DAY));
    assert_eq!(route.len(), 0);
}

#[test]
fn fan_out_keeps_every_edge_of_one_origin() {
    let loads = vec![
        load(1, c(0, 0), c(0, 1_000_000), 10),
        load(2, c(0, 0), c(0, 2_000_000), 20),
        load(3, c(0, 0), c(0, 3_000_000), 30),
    ];
    let g = graph_of(&loads);
    let edges = g.edges_at(c(0, 0).key()).unwrap();
    assert_eq!(edges.len(), 3);
    assert_eq!(edges[0].load_id, 1);
    assert_eq!(edges[1].load_id, 2);
    assert_eq!(edges[2].load_id, 3);
}

#[test]
fn building_twice_gives_the_same_graph() {
    let loads = vec![
        load(1, c(0, 0), c(0, 1_000_000), 100),
        load(2, c(0, 1_000_000), c(0, 2_000_000), 50),
        load(3, c(0, 0), c(5_000_000, 5_000_000), 75),
    ];
    let g1 = graph_of(&loads);
    let g2 = graph_of(&loads);
    for l in &loads {
        let k = l.origin.key();
        assert_eq!(g1.edges_at(k).unwrap(), g2.edges_at(k).unwrap());
        assert!(g1.locations.contains(&l.origin.key()));
        assert!(g2.locations.contains(&l.origin.key()));
        assert!(g1.locations.contains(&l.dest.key()));
        assert!(g2.locations.contains(&l.dest.key()));
    }
    assert_eq!(g1.locations.len(), g2.locations.len());
}

#[test]
fn plan_trip_keeps_the_requester_and_the_order() {
    let loads = vec![
        load(9, c(0, 0), c(0, 1_000_000), 100),
        load(4, c(0, 1_000_000), c(0, 2_000_000), 50),
    ];
    let g = graph_of(&loads);
    let cfg = EngineConfig::stock();
    let req = TripRequest { trip_id: 42, start: c(0, 0), start_time: 1_000, deadline: 1_000 + DAY };
    let res = plan_trip(&g, &cfg, &req);
    assert_eq!(res.trip_id, 42);
    assert_eq!(res.load_ids, vec![9, 4]);
}

#[test]
fn searches_do_not_disturb_the_graph_or_each_other() {
    // two requests against one graph, each answered independently
    let loads = vec![load(1, c(0, 0), c(0, 1_000_000), 100)];
    let g = graph_of(&loads);
    let cfg = EngineConfig::stock();
    let r1 = search(&g, &cfg, &request(c(0, 0), 0, DAY));
    let r2 = search(&g, &cfg, &request(c(0, 0), 0, 0));
    let r3 = search(&g, &cfg, &request(c(0, 0), 0, DAY));
    assert_eq!(route_load_ids(&r1), vec![1]);
    assert_eq!(r2.len(), 0);
    assert_eq!(route_load_ids(&r3), vec![1]);
}
