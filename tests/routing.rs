use geo::{Distance, Haversine, Point};

use osm_router::builder::{BuildError, Pbf};
use osm_router::error::RouteError;
use osm_router::graph::Graph;
use osm_router::options::{ChargingOptions, Routing, Transport};
use osm_router::osm::{Coordinates, OsmNode, OsmWay, Tag};
use osm_router::router::Router;
use osm_router::snapshot::{check_csr, frame, unframe, SnapshotError};

fn haversine(a: Coordinates, b: Coordinates) -> u32 {
    let p = Point::new(a.lon as f64 * 1e-7, a.lat as f64 * 1e-7);
    let q = Point::new(b.lon as f64 * 1e-7, b.lat as f64 * 1e-7);
    Haversine.distance(p, q).round() as u32
}

fn tag(key: &str, value: &str) -> Tag {
    Tag { key: key.as_bytes().to_vec(), value: value.as_bytes().to_vec() }
}

/// Node `i` lies 0.01 degree of latitude (about 1.1 km) north of node `i - 1`.
fn position(i: i64) -> Coordinates {
    Coordinates::new(487417761 + (i as i32) * 100000, 91036340)
}

fn node(id: i64, tags: Vec<Tag>) -> OsmNode {
    OsmNode { id, coordinates: position(id), tags }
}

fn way(id: i64, nodes: Vec<i64>, tags: Vec<Tag>) -> OsmWay {
    OsmWay { id, nodes, tags }
}

/// Ten nodes on a residential street running north, a one-way motorway
/// from node 10 to node 11, a cycleway from node 11 to node 12, a footway
/// that is no road class, and a charging station for cars at node 4.
fn sample() -> (Vec<OsmNode>, Vec<OsmWay>) {
    let mut nodes = Vec::new();
    for id in 1..=12 {
        let tags = if id == 4 {
            vec![tag("amenity", "charging_station"), tag("car", "yes")]
        } else {
            vec![]
        };
        nodes.push(node(id, tags));
    }
    nodes.push(node(99, vec![tag("amenity", "charging_station")]));
    let ways = vec![
        way(100, (1..=10).collect(), vec![tag("highway", "residential")]),
        way(101, vec![10, 11], vec![tag("highway", "motorway"), tag("oneway", "yes")]),
        way(102, vec![11, 12], vec![tag("highway", "cycleway"), tag("maxspeed", "20")]),
        way(103, vec![1, 12], vec![tag("highway", "footway")]),
    ];
    (nodes, ways)
}

fn build(nodes: &[OsmNode], ways: &[OsmWay]) -> Result<Graph, BuildError> {
    let mut pbf = Pbf::new();
    for n in nodes {
        pbf.parse_charging_station(n);
    }
    for w in ways {
        pbf.parse_way(w);
    }
    for n in nodes {
        pbf.parse_node(n);
    }
    pbf.create_graph(&haversine)
}

fn sample_graph() -> Graph {
    let (nodes, ways) = sample();
    build(&nodes, &ways).unwrap()
}

#[test]
fn builder_lays_out_compressed_rows() {
    let g = sample_graph();
    assert_eq!(g.nodes.len(), 12);
    assert_eq!(g.offsets.len(), 13);
    assert_eq!(g.offsets[0], 0);
    assert_eq!(*g.offsets.last().unwrap(), g.edges.len());
    // nine two-way street segments, one one-way motorway, one two-way cycleway
    assert_eq!(g.edges.len(), 18 + 1 + 2);
    for u in 0..g.nodes.len() {
        let out = g.edges(u);
        for (k, e) in out.iter().enumerate() {
            assert_eq!(e.source_index, u);
            assert!(e.target_index < g.nodes.len());
            if k > 0 {
                assert!(out[k - 1].target_index <= e.target_index);
            }
            let d = haversine(g.nodes[e.source_index].coordinates, g.nodes[e.target_index].coordinates);
            assert_eq!(e.distance, d);
        }
    }
    assert!(check_csr(g.nodes.len(), &g.offsets, &g.edges));
    assert_eq!(g.charging_stations().len(), 2);
    assert_eq!(g.charging_stations()[0].charging_options, ChargingOptions::Car);
    assert_eq!(g.charging_stations()[1].charging_options, ChargingOptions::CarBike);
}

#[test]
fn builder_numbers_nodes_in_first_seen_order() {
    let g = sample_graph();
    for (i, n) in g.nodes.iter().enumerate() {
        assert_eq!(n.id, i as i64 + 1);
        assert_eq!(g.node(i).coordinates.lat, position(n.id).lat);
    }
    let motorway = g.edges(9);
    assert!(motorway.iter().any(|e| e.target_index == 10 && e.transport == Transport::Car));
    assert!(!g.edges(10).iter().any(|e| e.target_index == 9));
    let cycle = g.edges(11);
    assert_eq!(cycle.len(), 1);
    assert_eq!(cycle[0].max_speed.speed, 20);
}

#[test]
fn from_pbf_runs_the_three_passes() {
    let (nodes, ways) = sample();
    let g = Graph::from_pbf(&nodes, &ways, &haversine).unwrap();
    let h = sample_graph();
    assert_eq!(g.nodes.len(), h.nodes.len());
    assert_eq!(g.offsets, h.offsets);
    assert_eq!(g.edges.len(), h.edges.len());
    for (a, b) in g.edges.iter().zip(h.edges.iter()) {
        assert_eq!((a.source_index, a.target_index, a.distance), (b.source_index, b.target_index, b.distance));
    }
    let (nodes, ways) = sample();
    let mut fewer = nodes.clone();
    fewer.retain(|n| n.id != 12);
    assert_eq!(Graph::from_pbf(&fewer, &ways, &haversine).err(), Some(BuildError::MissingNode));
}

#[test]
fn builder_reports_missing_node() {
    let (mut nodes, ways) = sample();
    nodes.retain(|n| n.id != 7);
    assert_eq!(build(&nodes, &ways).err(), Some(BuildError::MissingNode));
}

#[test]
fn snap_picks_a_node_the_mode_can_use() {
    let g = sample_graph();
    let near_twelve = Coordinates::new(position(12).lat + 10, position(12).lon);
    let bike = g.nearest_neighbor(&near_twelve, Transport::Bike, &haversine).unwrap();
    assert_eq!(g.nodes[bike].id, 12);
    // no node in that cell has an out-edge open to cars
    let car = g.nearest_neighbor(&near_twelve, Transport::Car, &haversine);
    assert_eq!(car, Err(RouteError::NoModeMatch));
    let five = g.nearest_neighbor(&position(5), Transport::Car, &haversine).unwrap();
    assert_eq!(g.nodes[five].id, 5);
    assert!(g.edges(five).iter().any(|e| e.transport.contains(Transport::Car)));
}

#[test]
fn off_map_point_fails() {
    let g = sample_graph();
    let router = Router::new(&g, Transport::Car, Routing::Distance, haversine);
    let r = router.shortest_path(&Coordinates::new(0, 0), &position(5));
    assert_eq!(r.err(), Some(RouteError::PointOffMap));
    assert_eq!(RouteError::PointOffMap.message(), "Couldn't locate point on map");
}

#[test]
fn start_is_goal_fails() {
    let g = sample_graph();
    let router = Router::new(&g, Transport::Car, Routing::Distance, haversine);
    let r = router.shortest_path(&position(3), &position(3));
    assert_eq!(r.err(), Some(RouteError::StartIsGoal));
}

#[test]
fn unreachable_goal_fails() {
    let g = sample_graph();
    let router = Router::new(&g, Transport::Bike, Routing::Distance, haversine);
    // the motorway only runs from node 10 to node 11, and bikes may not use it
    let r = router.shortest_path(&position(12), &position(2));
    assert_eq!(r.err(), Some(RouteError::NoPath));
}

#[test]
fn route_distance_is_the_sum_of_its_edges() {
    let g = sample_graph();
    let router = Router::new(&g, Transport::Car, Routing::Distance, haversine);
    let route = router.shortest_path(&position(1), &position(10)).unwrap();
    assert_eq!(route.path.len(), 10);
    assert_eq!(route.path[0].lat, position(10).lat);
    assert_eq!(route.path[9].lat, position(1).lat);
    let mut sum = 0u32;
    for i in 0..route.path.len() - 1 {
        sum += haversine(route.path[i], route.path[i + 1]);
    }
    assert_eq!(route.distance, sum);
    assert!(route.distance < 2 * haversine(position(1), position(10)));
    assert!(route.visited_charging.is_none());
}

#[test]
fn route_uses_only_roads_open_to_the_mode() {
    let g = sample_graph();
    let router = Router::new(&g, Transport::Bike, Routing::Distance, haversine);
    let start = g.nearest_neighbor(&position(1), Transport::Bike, &haversine).unwrap();
    let goal = g.nearest_neighbor(&position(10), Transport::Bike, &haversine).unwrap();
    let trail = router.search(start, goal).unwrap();
    assert_eq!(trail.len(), 9);
    for k in trail.iter() {
        assert!(g.edges[*k].transport.contains(Transport::Bike));
    }
    // the cycleway end is cut off from the street for bikes
    let twelve = g.nearest_neighbor(&position(12), Transport::Bike, &haversine).unwrap();
    assert_eq!(router.search(start, twelve).err(), Some(RouteError::NoPath));
}

#[test]
fn time_routing_counts_seconds() {
    let g = sample_graph();
    let router = Router::new(&g, Transport::Car, Routing::Time, haversine);
    let route = router.shortest_path(&position(1), &position(2)).unwrap();
    let d = haversine(position(1), position(2));
    assert_eq!(route.distance, d);
    // residential default speed is 30 km/h
    assert_eq!(route.time, ((d as u64 * 36 + 150) / 300) as u32);
}

#[test]
fn shortest_path_is_deterministic() {
    let g = sample_graph();
    let router = Router::new(&g, Transport::Car, Routing::Time, haversine);
    let a = router.shortest_path(&position(2), &position(10)).unwrap();
    let b = router.shortest_path(&position(2), &position(10)).unwrap();
    assert_eq!(a.distance, b.distance);
    assert_eq!(a.time, b.time);
    assert_eq!(a.path.len(), b.path.len());
    for (x, y) in a.path.iter().zip(b.path.iter()) {
        assert_eq!((x.lat, x.lon), (y.lat, y.lon));
    }
}

#[test]
fn range_plan_inserts_a_charging_stop() {
    let g = sample_graph();
    let router = Router::new(&g, Transport::Car, Routing::Distance, haversine);
    let direct = router.shortest_path(&position(1), &position(10)).unwrap();
    let route = router.plan_route(&position(1), &position(10), 6000, 8000).unwrap();
    let stops = route.visited_charging.clone().unwrap();
    assert_eq!(stops.len(), 1);
    assert_eq!(stops[0].lat, position(4).lat);
    assert_eq!(route.distance, direct.distance);
    assert_eq!(route.path.len(), 10);
    assert_eq!(route.path[0].lat, position(10).lat);
    assert_eq!(route.path[9].lat, position(1).lat);
    let rest = router.shortest_path(&position(4), &position(10)).unwrap();
    assert!(rest.distance <= 8000);
}

#[test]
fn range_plan_within_range_is_the_direct_route() {
    let g = sample_graph();
    let router = Router::new(&g, Transport::Car, Routing::Distance, haversine);
    let route = router.plan_route(&position(1), &position(3), 50000, 350000).unwrap();
    assert!(route.visited_charging.is_none());
    assert_eq!(route.path.len(), 3);
}

#[test]
fn range_plan_gives_up_when_no_stop_helps() {
    let g = sample_graph();
    let router = Router::new(&g, Transport::Car, Routing::Distance, haversine);
    let r = router.plan_route(&position(1), &position(10), 1000, 1000);
    assert_eq!(r.err(), Some(RouteError::UnreasonableRange));
}

#[test]
fn optimal_station_prefers_the_farthest_in_reach() {
    let g = sample_graph();
    let router = Router::new(&g, Transport::Car, Routing::Distance, haversine);
    let far = router.get_optimal_charging_station_coords(&position(1), &position(10), 200000);
    assert_eq!(far.lat, position(99).lat);
    let near = router.get_optimal_charging_station_coords(&position(1), &position(10), 6000);
    assert_eq!(near.lat, position(4).lat);
    let none = router.get_optimal_charging_station_coords(&position(1), &position(10), 10);
    assert_eq!(none.lat, position(1).lat);
    let bike = Router::new(&g, Transport::Bike, Routing::Distance, haversine);
    let for_bike = bike.get_optimal_charging_station_coords(&position(1), &position(10), 6000);
    assert_eq!(for_bike.lat, position(1).lat);
}

#[test]
fn snapshot_frame_round_trip() {
    let payload = vec![1u8, 2, 3, 250];
    let bytes = frame(&payload);
    assert_eq!(&bytes[..5], &[79u8, 83, 77, 71, 1][..]);
    assert_eq!(unframe(&bytes), Ok(payload));
    assert_eq!(unframe(&[79u8, 83, 77]), Err(SnapshotError::NotASnapshot));
    assert_eq!(unframe(&[1u8, 2, 3, 4, 5]), Err(SnapshotError::NotASnapshot));
    assert_eq!(unframe(&[79u8, 83, 77, 71, 9, 0]), Err(SnapshotError::UnsupportedVersion));
    assert_eq!(unframe(&[79u8, 83, 77, 71, 1]), Ok(vec![]));
}

#[test]
fn saved_graph_answers_queries_alike() {
    let g = sample_graph();
    let before = Router::new(&g, Transport::Car, Routing::Distance, haversine)
        .shortest_path(&position(1), &position(10))
        .unwrap();
    let (nodes, offsets, edges, stations) = g.into_parts();
    let loaded = Graph::new(nodes, offsets, edges, stations).unwrap();
    let after = Router::new(&loaded, Transport::Car, Routing::Distance, haversine)
        .shortest_path(&position(1), &position(10))
        .unwrap();
    assert_eq!(before.distance, after.distance);
    assert_eq!(before.time, after.time);
    assert_eq!(before.path.len(), after.path.len());
}

#[test]
fn corrupt_parts_are_refused() {
    let g = sample_graph();
    let (nodes, mut offsets, edges, stations) = g.into_parts();
    offsets[3] = offsets[4] + 1;
    assert!(Graph::new(nodes, offsets, edges, stations).is_err());
    let g = sample_graph();
    let (nodes, offsets, mut edges, stations) = g.into_parts();
    edges[0].target_index = 500;
    assert_eq!(
        Graph::new(nodes, offsets, edges, stations).err().map(|e| e == SnapshotError::Corrupt),
        Some(true)
    );
}
