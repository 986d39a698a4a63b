use std::collections::HashSet;

use osm_router::highway::Highway::{
    Cycleway, LivingStreet, Motorway, MotorwayLink, Primary, PrimaryLink, Residential, Road,
    Secondary, SecondaryLink, Service, Tertiary, TertiaryLink, Track, Trunk, TrunkLink,
    Unclassified,
};
use osm_router::highway::{Highway, Kmh};
use osm_router::options::{ChargingOptions, Routing, Transport};
use osm_router::osm::{is_oneway, Coordinates, OsmWay, Tag};
use osm_router::queue::{MinQueue, RouterNode};
use osm_router::text::parse_u32;

fn tag(key: &str, value: &str) -> Tag {
    Tag { key: key.as_bytes().to_vec(), value: value.as_bytes().to_vec() }
}

fn way(tags: Vec<Tag>) -> OsmWay {
    OsmWay { id: 1, nodes: vec![1, 2], tags }
}

#[test]
fn min_priority_queue() {
    let mut queue = MinQueue::new();
    queue.push(RouterNode::new(3, 3, 0));
    queue.push(RouterNode::new(1, 1, 0));
    queue.push(RouterNode::new(20, 20, 0));
    queue.push(RouterNode::new(2, 2, 0));
    queue.push(RouterNode::new(5, 5, 0));

    assert_eq!(queue.pop().unwrap().cost, 1);
    assert_eq!(queue.pop().unwrap().cost, 2);
    assert_eq!(queue.pop().unwrap().cost, 3);
    assert_eq!(queue.pop().unwrap().cost, 5);
    queue.push(RouterNode::new(15, 15, 0));
    assert_eq!(queue.pop().unwrap().cost, 15);
    assert_eq!(queue.pop().unwrap().cost, 20);
}

#[test]
fn queue_orders_by_priority_then_node_index() {
    let mut queue = MinQueue::new();
    assert!(queue.pop().is_none());
    queue.push(RouterNode::new(7, 10, 5));
    queue.push(RouterNode::new(8, 2, 20));
    queue.push(RouterNode::new(9, 14, 1));
    let first = queue.pop().unwrap();
    assert_eq!(first.index, 7);
    assert_eq!(first.priority(), 15);
    assert_eq!(queue.pop().unwrap().index, 9);
    assert_eq!(queue.pop().unwrap().index, 8);
    assert!(queue.is_empty());
    queue.push(RouterNode::new(9, 5, 0));
    queue.push(RouterNode::new(4, 5, 0));
    queue.push(RouterNode::new(4, 3, 2));
    assert_eq!(queue.len(), 3);
    let a = queue.pop().unwrap();
    assert_eq!((a.index, a.cost), (4, 3));
    let b = queue.pop().unwrap();
    assert_eq!((b.index, b.cost), (4, 5));
    assert_eq!(queue.pop().unwrap().index, 9);
}

#[test]
fn time() {
    assert_eq!(14, Kmh::new(50).time(200));
    assert_eq!(36, Kmh::new(20).time(200));
    assert_eq!(144, Kmh::new(5).time(200));
}

#[test]
fn time_edge_cases() {
    assert_eq!(0, Kmh::new(0).time(0));
    assert_eq!(u32::MAX, Kmh::new(0).time(1));
    assert_eq!(7, Kmh::new(100).time(200));
    assert_eq!(u32::MAX, Kmh::new(1).time(u32::MAX));
}

#[test]
fn transport_mapping() {
    let mut car: HashSet<Highway> = [
        Motorway,
        Trunk,
        Primary,
        Secondary,
        Tertiary,
        Unclassified,
        Residential,
        MotorwayLink,
        TrunkLink,
        PrimaryLink,
        SecondaryLink,
        TertiaryLink,
        LivingStreet,
        Service,
    ]
    .iter()
    .cloned()
    .collect();
    let mut bike: HashSet<Highway> = [
        Primary,
        Secondary,
        Tertiary,
        Unclassified,
        Residential,
        PrimaryLink,
        SecondaryLink,
        TertiaryLink,
        LivingStreet,
        Service,
        Cycleway,
        Track,
        Road,
    ]
    .iter()
    .cloned()
    .collect();

    let all: HashSet<Highway> = car.intersection(&bike).cloned().collect();
    println!("All: {:?}", all);

    car = car.difference(&all).cloned().collect();
    car = car.difference(&bike).cloned().collect();
    println!("Car: {:?}", car);

    bike = bike.difference(&all).cloned().collect();
    bike = bike.difference(&car).cloned().collect();
    println!("Bike: {:?}", bike);

    for h in car.iter() {
        assert_eq!(Transport::from(*h), Transport::Car);
    }
    for h in bike.iter() {
        assert_eq!(Transport::from(*h), Transport::Bike);
    }
    for h in all.iter() {
        let t = Transport::from(*h);
        assert!(t == Transport::All || t == Transport::CarBike);
        assert!(t.contains(Transport::Car) && t.contains(Transport::Bike));
    }
}

#[test]
fn charging_options_contains() {
    assert!(ChargingOptions::CarBike.contains(ChargingOptions::Car));
    assert!(!ChargingOptions::Car.contains(ChargingOptions::Bike));
    assert!(ChargingOptions::Bike.contains(ChargingOptions::Bike));
    assert!(!ChargingOptions::Neither.contains(ChargingOptions::Car));
    assert_eq!(ChargingOptions::from(Transport::All), ChargingOptions::Neither);
    assert_eq!(ChargingOptions::from(Transport::Car), ChargingOptions::Car);
}

#[test]
fn transport_contains() {
    assert!(Transport::All.contains(Transport::Bike));
    assert!(Transport::CarBike.contains(Transport::Car));
    assert!(!Transport::CarBike.contains(Transport::All));
    assert!(!Transport::Car.contains(Transport::Bike));
    assert!(Transport::Bike.contains(Transport::Bike));
}

#[test]
fn words_name_modes_and_objectives() {
    assert_eq!(Transport::parse(b"car"), Some(Transport::Car));
    assert_eq!(Transport::parse(b"car_bike"), Some(Transport::CarBike));
    assert_eq!(Transport::parse(b"walk"), None);
    assert_eq!(Routing::parse(b"time"), Some(Routing::Time));
    assert_eq!(Routing::parse(b"distance"), Some(Routing::Distance));
    assert_eq!(Routing::parse(b"Distance"), None);
}

#[test]
fn decimal_parsing() {
    assert_eq!(parse_u32(b"50"), Some(50));
    assert_eq!(parse_u32(b"+7"), Some(7));
    assert_eq!(parse_u32(b"4294967295"), Some(u32::MAX));
    assert_eq!(parse_u32(b"4294967296"), None);
    assert_eq!(parse_u32(b""), None);
    assert_eq!(parse_u32(b"+"), None);
    assert_eq!(parse_u32(b"5a"), None);
    assert_eq!(parse_u32(b"-5"), None);
}

#[test]
fn highway_classes_from_tags() {
    assert_eq!(Highway::from_tag(b"motorway_link"), Some(MotorwayLink));
    assert_eq!(Highway::from_tag(b"living_street"), Some(LivingStreet));
    assert_eq!(Highway::from_tag(b"footway"), None);
    assert_eq!(Highway::from(&way(vec![tag("highway", "trunk")])), Some(Trunk));
    assert_eq!(Highway::from(&way(vec![tag("name", "x")])), None);
    assert_eq!(Motorway.default_speed(), Some(Kmh::new(120)));
    assert_eq!(LivingStreet.default_speed(), Some(Kmh::new(5)));
    assert_eq!(Cycleway.default_speed(), Some(Kmh::new(30)));
}

#[test]
fn max_speed_tags() {
    assert_eq!(Kmh::from(&way(vec![tag("maxspeed", "70")])), Some(Kmh::new(70)));
    assert_eq!(Kmh::from(&way(vec![tag("maxspeed", "30 mph")])), Some(Kmh::new(48)));
    assert_eq!(Kmh::from(&way(vec![tag("maxspeed", "60 mph")])), Some(Kmh::new(96)));
    assert_eq!(Kmh::from(&way(vec![tag("maxspeed", "walk")])), None);
    assert_eq!(Kmh::from(&way(vec![tag("maxspeed", "mph")])), None);
    assert_eq!(Kmh::from(&way(vec![])), None);
}

#[test]
fn oneway_tags() {
    assert!(is_oneway(&way(vec![tag("oneway", "yes")])));
    assert!(!is_oneway(&way(vec![tag("oneway", "no")])));
    assert!(!is_oneway(&way(vec![])));
}

#[test]
fn cell_rounding_and_equality() {
    let a = Coordinates::new(487417761, 91036340);
    assert_eq!(a.lat_rounded(), 487);
    assert_eq!(a.lon_rounded(), 91);
    assert_eq!(Coordinates::new(-487500000, 0).lat_rounded(), -488);
    assert_eq!(Coordinates::new(487499999, 0).lat_rounded(), 487);
    assert_eq!(Coordinates::new(i32::MAX, i32::MIN).lat_rounded(), 2147);
    assert!(a == Coordinates::new(487200000, 91100000));
    assert!(a != Coordinates::new(487600000, 91036340));
}
