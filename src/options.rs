use vstd::prelude::*;

use crate::highway::Highway;
use crate::text::bytes_eq;

verus! {

/// The set of vehicles a road admits, and the vehicle a query routes for.
#[derive(Debug, Clone, Copy, PartialEq, Eq, Structural)]
pub enum Transport {
    Car,
    Bike,
    All,
    CarBike,
}

/// The vehicles a charging station can charge.
#[derive(Debug, Clone, Copy, PartialEq, Eq, Structural)]
pub enum ChargingOptions {
    Car,
    Bike,
    CarBike,
    Neither,
}

/// What a route minimises.
#[derive(Debug, Clone, Copy, PartialEq, Eq, Structural)]
pub enum Routing {
    Time,
    Distance,
}

/// `a` admits `b`: `All` admits everything, `CarBike` admits cars and bikes,
/// and every set admits itself.
pub open spec fn transport_admits(a: Transport, b: Transport) -> bool {
    ||| a == Transport::All
    ||| a == b
    ||| (a == Transport::CarBike && (b == Transport::Car || b == Transport::Bike))
}

/// `a` can serve what `b` asks for.
pub open spec fn charging_admits(a: ChargingOptions, b: ChargingOptions) -> bool {
    ||| a == ChargingOptions::CarBike
    ||| a == b
}

/// The charging a vehicle of mode `t` needs.
pub open spec fn charging_for(t: Transport) -> ChargingOptions {
    match t {
        Transport::Bike => ChargingOptions::Bike,
        Transport::Car => ChargingOptions::Car,
        Transport::CarBike => ChargingOptions::CarBike,
        Transport::All => ChargingOptions::Neither,
    }
}

impl ChargingOptions {
    /// The charging options a vehicle of the given mode needs.
    pub fn from(transport: Transport) -> (r: Self)
        ensures
            r == charging_for(transport),
    {
        match transport {
            Transport::Bike => ChargingOptions::Bike,
            Transport::Car => ChargingOptions::Car,
            Transport::CarBike => ChargingOptions::CarBike,
            Transport::All => ChargingOptions::Neither,
        }
    }

    /// Whether a station with these options can charge what `other` asks for.
    pub fn contains(self, other: Self) -> (r: bool)
        ensures
            r == charging_admits(self, other),
    {
        self == ChargingOptions::CarBike || self == other
    }
}

impl Transport {
    /// Whether a road open to `self` may be used by `other`.
    pub fn contains(self, other: Self) -> (r: bool)
        ensures
            r == transport_admits(self, other),
    {
        self == Transport::All || self == other || (self == Transport::CarBike && (other
            == Transport::Car || other == Transport::Bike))
    }
}


/// The vehicles a road class admits.
pub open spec fn transport_of(h: Highway) -> Transport {
    match h {
        Highway::Residential | Highway::Tertiary | Highway::Unclassified | Highway::Service
        | Highway::LivingStreet | Highway::TertiaryLink => Transport::All,
        Highway::Secondary | Highway::SecondaryLink | Highway::Primary
        | Highway::PrimaryLink => Transport::CarBike,
        Highway::Motorway | Highway::MotorwayLink | Highway::Trunk
        | Highway::TrunkLink => Transport::Car,
        Highway::Track | Highway::Road | Highway::Cycleway => Transport::Bike,
    }
}

/// The mode a word names: `car`, `bike`, `all` or `car_bike`.
pub open spec fn transport_named(s: Seq<u8>) -> Option<Transport> {
    if s == seq![99u8, 97, 114] {
        Some(Transport::Car)
    } else if s == seq![98u8, 105, 107, 101] {
        Some(Transport::Bike)
    } else if s == seq![97u8, 108, 108] {
        Some(Transport::All)
    } else if s == seq![99u8, 97, 114, 95, 98, 105, 107, 101] {
        Some(Transport::CarBike)
    } else {
        None
    }
}

/// The objective a word names: `time` or `distance`.
pub open spec fn routing_named(s: Seq<u8>) -> Option<Routing> {
    if s == seq![116u8, 105, 109, 101] {
        Some(Routing::Time)
    } else if s == seq![100u8, 105, 115, 116, 97, 110, 99, 101] {
        Some(Routing::Distance)
    } else {
        None
    }
}

impl Transport {
    /// The vehicles a road class admits.
    pub fn from(highway: Highway) -> (r: Self)
        ensures
            r == transport_of(highway),
    {
        match highway {
            Highway::Residential | Highway::Tertiary | Highway::Unclassified | Highway::Service
            | Highway::LivingStreet | Highway::TertiaryLink => Transport::All,
            Highway::Secondary | Highway::SecondaryLink | Highway::Primary
            | Highway::PrimaryLink => Transport::CarBike,
            Highway::Motorway | Highway::MotorwayLink | Highway::Trunk
            | Highway::TrunkLink => Transport::Car,
            Highway::Track | Highway::Road | Highway::Cycleway => Transport::Bike,
        }
    }

    /// The mode a word names, in snake case.
    pub fn parse(s: &[u8]) -> (r: Option<Self>)
        ensures
            r == transport_named(s@),
    {
        let car = vec![99u8, 97, 114];
        let bike = vec![98u8, 105, 107, 101];
        let all = vec![97u8, 108, 108];
        let car_bike = vec![99u8, 97, 114, 95, 98, 105, 107, 101];
        proof {
            assert(car@ =~= seq![99u8, 97, 114]);
            assert(bike@ =~= seq![98u8, 105, 107, 101]);
            assert(all@ =~= seq![97u8, 108, 108]);
            assert(car_bike@ =~= seq![99u8, 97, 114, 95, 98, 105, 107, 101]);
        }
        if bytes_eq(s, car.as_slice()) {
            Some(Transport::Car)
        } else if bytes_eq(s, bike.as_slice()) {
            Some(Transport::Bike)
        } else if bytes_eq(s, all.as_slice()) {
            Some(Transport::All)
        } else if bytes_eq(s, car_bike.as_slice()) {
            Some(Transport::CarBike)
        } else {
            None
        }
    }
}

impl Routing {
    /// The objective a word names, in snake case.
    pub fn parse(s: &[u8]) -> (r: Option<Self>)
        ensures
            r == routing_named(s@),
    {
        let time = vec![116u8, 105, 109, 101];
        let distance = vec![100u8, 105, 115, 116, 97, 110, 99, 101];
        proof {
            assert(time@ =~= seq![116u8, 105, 109, 101]);
            assert(distance@ =~= seq![100u8, 105, 115, 116, 97, 110, 99, 101]);
        }
        if bytes_eq(s, time.as_slice()) {
            Some(Routing::Time)
        } else if bytes_eq(s, distance.as_slice()) {
            Some(Routing::Distance)
        } else {
            None
        }
    }
}

} // verus!
