use std::time::Instant;

use geo::{Distance, Haversine, Point};

use osm_router::graph::Graph;
use osm_router::options::{Routing, Transport};
use osm_router::osm::{Coordinates, OsmNode, OsmWay, Tag};
use osm_router::router::Router;

fn haversine(a: Coordinates, b: Coordinates) -> u32 {
    let p = Point::new(a.lon as f64 * 1e-7, a.lat as f64 * 1e-7);
    let q = Point::new(b.lon as f64 * 1e-7, b.lat as f64 * 1e-7);
    Haversine.distance(p, q).round() as u32
}

/// Coordinates from degrees, truncated to 10^-7 degree.
fn degrees(lat: f64, lon: f64) -> Coordinates {
    Coordinates::new((lat / 1e-7) as i32, (lon / 1e-7) as i32)
}

fn tag(key: &str, value: &str) -> Tag {
    Tag { key: key.as_bytes().to_vec(), value: value.as_bytes().to_vec() }
}

/// A street through the given positions, as an extract of nodes and one way.
fn street(points: &[Coordinates], class: &str) -> Graph {
    let nodes: Vec<OsmNode> = points
        .iter()
        .enumerate()
        .map(|(i, c)| OsmNode { id: i as i64 + 1, coordinates: *c, tags: vec![] })
        .collect();
    let ways = vec![OsmWay {
        id: 1,
        nodes: (1..=points.len() as i64).collect(),
        tags: vec![tag("highway", class)],
    }];
    Graph::from_pbf(&nodes, &ways, &haversine).unwrap()
}

#[test]
fn shortest_path() {
    // a short residential street in Stuttgart with a bend between the two points
    let start = degrees(48.7417761, 9.1036340);
    let goal = degrees(48.7452193, 9.1025545);
    let graph = street(&[start, degrees(48.7431000, 9.1040000), goal], "residential");
    let router = Router::new(&graph, Transport::Car, Routing::Distance, haversine);
    let max_distance = haversine(start, goal) * 2;

    let route = router.shortest_path(&start, &goal);
    let lol = route.unwrap();
    assert!(lol.distance < max_distance);
}

#[test]
fn time_stuttgart_hamburg() {
    // a motorway in sixty straight pieces from Stuttgart to Hamburg
    let stuttgart = degrees(48.783418, 9.181945);
    let hamburg = degrees(53.552483, 10.006797);
    let mut points = Vec::new();
    for i in 0..=60 {
        let f = i as f64 / 60.0;
        points.push(degrees(
            48.783418 + f * (53.552483 - 48.783418),
            9.181945 + f * (10.006797 - 9.181945),
        ));
    }
    let graph = street(&points, "motorway");
    let router = Router::new(&graph, Transport::Car, Routing::Time, haversine);
    let now = Instant::now();
    let route = router.shortest_path(&stuttgart, &hamburg);
    let secs = now.elapsed().as_secs();
    assert!(route.is_ok());
    assert!(secs < 10);
    assert_eq!(route.unwrap().path.len(), 61);
}

#[test]
fn objective_decides_between_short_and_fast_roads() {
    let a = Coordinates::new(487000000, 91000000);
    let b = Coordinates::new(487000000, 91100000);
    let c = Coordinates::new(487100000, 91100000);
    let d = Coordinates::new(487100000, 91000000);
    let nodes: Vec<OsmNode> = [a, b, c, d]
        .iter()
        .enumerate()
        .map(|(i, p)| OsmNode { id: i as i64 + 1, coordinates: *p, tags: vec![] })
        .collect();
    let ways = vec![
        OsmWay { id: 1, nodes: vec![1, 4], tags: vec![tag("highway", "residential")] },
        OsmWay { id: 2, nodes: vec![1, 2, 3, 4], tags: vec![tag("highway", "motorway")] },
    ];
    let graph = Graph::from_pbf(&nodes, &ways, &haversine).unwrap();

    let by_distance = Router::new(&graph, Transport::Car, Routing::Distance, haversine);
    let short = by_distance.shortest_path(&a, &d).unwrap();
    assert_eq!(short.path.len(), 2);
    assert_eq!(short.distance, haversine(a, d));

    let by_time = Router::new(&graph, Transport::Car, Routing::Time, haversine);
    let fast = by_time.shortest_path(&a, &d).unwrap();
    assert_eq!(fast.path.len(), 4);
    assert!(fast.time < short.time);
    assert!(fast.distance > short.distance);

    // bikes may not use the motorway
    let by_bike = Router::new(&graph, Transport::Bike, Routing::Time, haversine);
    assert_eq!(by_bike.shortest_path(&a, &d).unwrap().path.len(), 2);
}
