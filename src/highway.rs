//! Road classes, their default speeds, and speeds in km/h.
use vstd::prelude::*;

use crate::osm::{maxspeed_bytes, highway_bytes, mph_bytes, find_tag, tag_value, word_highway, word_maxspeed, word_mph, OsmWay};
use crate::text::{bytes_eq, parse_u32, parse_u32_spec};

verus! {

/// A road class, as the value of a way's `highway` tag names it.
#[derive(Debug, Clone, Copy, PartialEq, Eq, Hash, Structural)]
pub enum Highway {
    Motorway,
    Trunk,
    Primary,
    Secondary,
    Tertiary,
    Unclassified,
    Residential,
    MotorwayLink,
    TrunkLink,
    PrimaryLink,
    SecondaryLink,
    TertiaryLink,
    LivingStreet,
    Service,
    Track,
    Road,
    Cycleway,
}

/// The tag value that names a road class (its name in snake case).
pub open spec fn highway_name(h: Highway) -> Seq<u8> {
    match h {
        Highway::Motorway => seq![109u8, 111, 116, 111, 114, 119, 97, 121],
        Highway::Trunk => seq![116u8, 114, 117, 110, 107],
        Highway::Primary => seq![112u8, 114, 105, 109, 97, 114, 121],
        Highway::Secondary => seq![115u8, 101, 99, 111, 110, 100, 97, 114, 121],
        Highway::Tertiary => seq![116u8, 101, 114, 116, 105, 97, 114, 121],
        Highway::Unclassified => seq![117u8, 110, 99, 108, 97, 115, 115, 105, 102, 105, 101, 100],
        Highway::Residential => seq![114u8, 101, 115, 105, 100, 101, 110, 116, 105, 97, 108],
        Highway::MotorwayLink => seq![109u8, 111, 116, 111, 114, 119, 97, 121, 95, 108, 105, 110, 107],
        Highway::TrunkLink => seq![116u8, 114, 117, 110, 107, 95, 108, 105, 110, 107],
        Highway::PrimaryLink => seq![112u8, 114, 105, 109, 97, 114, 121, 95, 108, 105, 110, 107],
        Highway::SecondaryLink => seq![115u8, 101, 99, 111, 110, 100, 97, 114, 121, 95, 108, 105, 110, 107],
        Highway::TertiaryLink => seq![116u8, 101, 114, 116, 105, 97, 114, 121, 95, 108, 105, 110, 107],
        Highway::LivingStreet => seq![108u8, 105, 118, 105, 110, 103, 95, 115, 116, 114, 101, 101, 116],
        Highway::Service => seq![115u8, 101, 114, 118, 105, 99, 101],
        Highway::Track => seq![116u8, 114, 97, 99, 107],
        Highway::Road => seq![114u8, 111, 97, 100],
        Highway::Cycleway => seq![99u8, 121, 99, 108, 101, 119, 97, 121],
    }
}

/// The road class a tag value names, if any.
pub open spec fn highway_of(s: Seq<u8>) -> Option<Highway> {
    if s == highway_name(Highway::Motorway) {
        Some(Highway::Motorway)
    } else if s == highway_name(Highway::Trunk) {
        Some(Highway::Trunk)
    } else if s == highway_name(Highway::Primary) {
        Some(Highway::Primary)
    } else if s == highway_name(Highway::Secondary) {
        Some(Highway::Secondary)
    } else if s == highway_name(Highway::Tertiary) {
        Some(Highway::Tertiary)
    } else if s == highway_name(Highway::Unclassified) {
        Some(Highway::Unclassified)
    } else if s == highway_name(Highway::Residential) {
        Some(Highway::Residential)
    } else if s == highway_name(Highway::MotorwayLink) {
        Some(Highway::MotorwayLink)
    } else if s == highway_name(Highway::TrunkLink) {
        Some(Highway::TrunkLink)
    } else if s == highway_name(Highway::PrimaryLink) {
        Some(Highway::PrimaryLink)
    } else if s == highway_name(Highway::SecondaryLink) {
        Some(Highway::SecondaryLink)
    } else if s == highway_name(Highway::TertiaryLink) {
        Some(Highway::TertiaryLink)
    } else if s == highway_name(Highway::LivingStreet) {
        Some(Highway::LivingStreet)
    } else if s == highway_name(Highway::Service) {
        Some(Highway::Service)
    } else if s == highway_name(Highway::Track) {
        Some(Highway::Track)
    } else if s == highway_name(Highway::Road) {
        Some(Highway::Road)
    } else if s == highway_name(Highway::Cycleway) {
        Some(Highway::Cycleway)
    } else {
        None
    }
}

/// The speed assumed on a road class that posts none, in km/h.
pub open spec fn default_speed_of(h: Highway) -> u32 {
    match h {
        Highway::Motorway => 120,
        Highway::Trunk => 120,
        Highway::Primary => 100,
        Highway::Secondary => 100,
        Highway::Tertiary => 100,
        Highway::Unclassified => 50,
        Highway::Residential => 30,
        Highway::MotorwayLink => 60,
        Highway::TrunkLink => 60,
        Highway::PrimaryLink => 50,
        Highway::SecondaryLink => 50,
        Highway::TertiaryLink => 50,
        Highway::LivingStreet => 5,
        Highway::Service => 30,
        Highway::Track => 30,
        Highway::Road => 30,
        Highway::Cycleway => 30,
    }
}

/// The road class of a way: its `highway` tag, when that names a known class.
pub open spec fn way_highway(way: OsmWay) -> Option<Highway> {
    match tag_value(way.tags@, word_highway()) {
        Some(v) => highway_of(v),
        None => None,
    }
}

impl Highway {
    /// The tag value that names this class.
    pub fn name_bytes(self) -> (r: Vec<u8>)
        ensures
            r@ == highway_name(self),
    {
        let r = match self {
            Highway::Motorway => vec![109u8, 111, 116, 111, 114, 119, 97, 121],
            Highway::Trunk => vec![116u8, 114, 117, 110, 107],
            Highway::Primary => vec![112u8, 114, 105, 109, 97, 114, 121],
            Highway::Secondary => vec![115u8, 101, 99, 111, 110, 100, 97, 114, 121],
            Highway::Tertiary => vec![116u8, 101, 114, 116, 105, 97, 114, 121],
            Highway::Unclassified => vec![117u8, 110, 99, 108, 97, 115, 115, 105, 102, 105, 101, 100],
            Highway::Residential => vec![114u8, 101, 115, 105, 100, 101, 110, 116, 105, 97, 108],
            Highway::MotorwayLink => vec![109u8, 111, 116, 111, 114, 119, 97, 121, 95, 108, 105, 110, 107],
            Highway::TrunkLink => vec![116u8, 114, 117, 110, 107, 95, 108, 105, 110, 107],
            Highway::PrimaryLink => vec![112u8, 114, 105, 109, 97, 114, 121, 95, 108, 105, 110, 107],
            Highway::SecondaryLink => vec![115u8, 101, 99, 111, 110, 100, 97, 114, 121, 95, 108, 105, 110, 107],
            Highway::TertiaryLink => vec![116u8, 101, 114, 116, 105, 97, 114, 121, 95, 108, 105, 110, 107],
            Highway::LivingStreet => vec![108u8, 105, 118, 105, 110, 103, 95, 115, 116, 114, 101, 101, 116],
            Highway::Service => vec![115u8, 101, 114, 118, 105, 99, 101],
            Highway::Track => vec![116u8, 114, 97, 99, 107],
            Highway::Road => vec![114u8, 111, 97, 100],
            Highway::Cycleway => vec![99u8, 121, 99, 108, 101, 119, 97, 121],
        };
        proof {
            assert(r@ =~= highway_name(self));
        }
        r
    }

    /// The road class a tag value names.
    pub fn from_tag(s: &[u8]) -> (r: Option<Self>)
        ensures
            r == highway_of(s@),
    {
        if bytes_eq(s, Highway::Motorway.name_bytes().as_slice()) {
            Some(Highway::Motorway)
    } else if bytes_eq(s, Highway::Trunk.name_bytes().as_slice()) {
            Some(Highway::Trunk)
    } else if bytes_eq(s, Highway::Primary.name_bytes().as_slice()) {
            Some(Highway::Primary)
    } else if bytes_eq(s, Highway::Secondary.name_bytes().as_slice()) {
            Some(Highway::Secondary)
    } else if bytes_eq(s, Highway::Tertiary.name_bytes().as_slice()) {
            Some(Highway::Tertiary)
    } else if bytes_eq(s, Highway::Unclassified.name_bytes().as_slice()) {
            Some(Highway::Unclassified)
    } else if bytes_eq(s, Highway::Residential.name_bytes().as_slice()) {
            Some(Highway::Residential)
    } else if bytes_eq(s, Highway::MotorwayLink.name_bytes().as_slice()) {
            Some(Highway::MotorwayLink)
    } else if bytes_eq(s, Highway::TrunkLink.name_bytes().as_slice()) {
            Some(Highway::TrunkLink)
    } else if bytes_eq(s, Highway::PrimaryLink.name_bytes().as_slice()) {
            Some(Highway::PrimaryLink)
    } else if bytes_eq(s, Highway::SecondaryLink.name_bytes().as_slice()) {
            Some(Highway::SecondaryLink)
    } else if bytes_eq(s, Highway::TertiaryLink.name_bytes().as_slice()) {
            Some(Highway::TertiaryLink)
    } else if bytes_eq(s, Highway::LivingStreet.name_bytes().as_slice()) {
            Some(Highway::LivingStreet)
    } else if bytes_eq(s, Highway::Service.name_bytes().as_slice()) {
            Some(Highway::Service)
    } else if bytes_eq(s, Highway::Track.name_bytes().as_slice()) {
            Some(Highway::Track)
    } else if bytes_eq(s, Highway::Road.name_bytes().as_slice()) {
            Some(Highway::Road)
    } else if bytes_eq(s, Highway::Cycleway.name_bytes().as_slice()) {
            Some(Highway::Cycleway)
        } else {
            None
        }
    }

    /// The road class of a way, from its `highway` tag.
    pub fn from(way: &OsmWay) -> (r: Option<Self>)
        ensures
            r == way_highway(*way),
    {
        let key = highway_bytes();
        match find_tag(&way.tags, key.as_slice()) {
            Some(i) => Self::from_tag(way.tags[i].value.as_slice()),
            None => None,
        }
    }

    /// The speed assumed on this class of road when none is posted.
    pub fn default_speed(self) -> (r: Option<Kmh>)
        ensures
            r == Some(Kmh { speed: default_speed_of(self) }),
    {
        let speed: u32 = match self {
            Self::Motorway => 120,
            Self::Trunk => 120,
            Self::Primary => 100,
            Self::Secondary => 100,
            Self::Tertiary => 100,
            Self::Unclassified => 50,
            Self::Residential => 30,
            Self::MotorwayLink => 60,
            Self::TrunkLink => 60,
            Self::PrimaryLink => 50,
            Self::SecondaryLink => 50,
            Self::TertiaryLink => 50,
            Self::LivingStreet => 5,
            Self::Service => 30,
            Self::Track => 30,
            Self::Road => 30,
            Self::Cycleway => 30,
        };
        Some(Kmh::new(speed))
    }
}
/// A speed in km/h.
#[derive(Debug, Clone, Copy, PartialEq, Eq, Structural)]
pub struct Kmh {
    pub speed: u32,
}

/// `m` mph in km/h: times 1.609344, truncated, at most `u32::MAX`.
pub open spec fn mph_to_kmh(m: u32) -> u32 {
    let k = m as int * 1609344 / 1000000;
    if k > u32::MAX {
        u32::MAX
    } else {
        k as u32
    }
}

/// The speed a `maxspeed` value states: a bare number is km/h, `<n> mph` is
/// converted; anything else states none.
pub open spec fn speed_of_tag(v: Seq<u8>) -> Option<u32> {
    match parse_u32_spec(v) {
        Some(n) => Some(n),
        None => if v.len() >= 4 && v.subrange(v.len() - 4, v.len() as int) == word_mph() {
            match parse_u32_spec(v.subrange(0, v.len() - 4)) {
                Some(m) => Some(mph_to_kmh(m)),
                None => None,
            }
        } else {
            None
        },
    }
}

/// The speed a way posts in its `maxspeed` tag, if it posts one that is understood.
pub open spec fn way_max_speed(way: OsmWay) -> Option<u32> {
    match tag_value(way.tags@, word_maxspeed()) {
        Some(v) => speed_of_tag(v),
        None => None,
    }
}

/// The whole seconds needed for `d` meters at `speed` km/h: `d / (speed / 3.6)`
/// rounded to the nearest second, at most `u32::MAX`. At speed zero any
/// distance takes `u32::MAX` seconds, and no distance none.
pub open spec fn travel_time(speed: u32, d: u32) -> u32 {
    if speed == 0 {
        if d == 0 {
            0
        } else {
            u32::MAX
        }
    } else {
        let t = (36 * d as int + 5 * speed as int) / (10 * speed as int);
        if t > u32::MAX {
            u32::MAX
        } else {
            t as u32
        }
    }
}

impl Kmh {
    /// A speed of `speed` km/h.
    pub fn new(speed: u32) -> (r: Self)
        ensures
            r.speed == speed,
    {
        Self { speed }
    }

    /// The speed that a way's `maxspeed` tag posts.
    pub fn from(way: &OsmWay) -> (r: Option<Self>)
        ensures
            r == (match way_max_speed(*way) {
                Some(s) => Some(Kmh { speed: s }),
                None => None,
            }),
    {
        let key = maxspeed_bytes();
        match find_tag(&way.tags, key.as_slice()) {
            Some(i) => match Self::from_tag(way.tags[i].value.as_slice()) {
                Some(s) => Some(Self::new(s)),
                None => None,
            },
            None => None,
        }
    }

    fn from_tag(v: &[u8]) -> (r: Option<u32>)
        ensures
            r == speed_of_tag(v@),
    {
        if let Some(n) = parse_u32(v) {
            return Some(n);
        }
        let len = v.len();
        if len < 4 {
            return None;
        }
        let unit = mph_bytes();
        let (number, suffix) = v.split_at(len - 4);
        proof {
            assert(suffix@ =~= v@.subrange(len - 4, len as int));
            assert(number@ =~= v@.subrange(0, len - 4));
        }
        if !bytes_eq(suffix, unit.as_slice()) {
            return None;
        }
        match parse_u32(number) {
            Some(m) => {
                let k: u64 = m as u64 * 1609344 / 1000000;
                if k > 4294967295u64 {
                    Some(u32::MAX)
                } else {
                    Some(k as u32)
                }
            },
            None => None,
        }
    }

    /// The time in whole seconds needed to travel `distance` meters at this speed.
    pub fn time(self, distance: u32) -> (r: u32)
        ensures
            r == travel_time(self.speed, distance),
    {
        if self.speed == 0 {
            return if distance == 0 { 0 } else { u32::MAX };
        }
        let num: u64 = 36 * distance as u64 + 5 * self.speed as u64;
        let den: u64 = 10 * self.speed as u64;
        let t: u64 = num / den;
        if t > 4294967295u64 {
            u32::MAX
        } else {
            t as u32
        }
    }
}

} // verus!
