//! The OpenStreetMap objects the graph is built from, and fixed-point coordinates.
use vstd::prelude::*;

use crate::text::bytes_eq;

verus! {

/// A position as latitude and longitude in units of 10^-7 degree.
#[derive(Debug, Clone, Copy)]
pub struct Coordinates {
    pub lat: i32,
    pub lon: i32,
}

/// `x / 10^6` rounded to the nearest integer, halves away from zero: a value in
/// 10^-7 degree brought to the 0.1 degree grid.
pub open spec fn round_to_cell(x: int) -> int {
    if x >= 0 {
        (x + 500000) / 1000000
    } else {
        -((-x + 500000) / 1000000)
    }
}

/// The grid cell of a position: both coordinates rounded to 0.1 degree.
pub open spec fn cell_of(c: Coordinates) -> (int, int) {
    (round_to_cell(c.lat as int), round_to_cell(c.lon as int))
}

impl Coordinates {
    /// Coordinates from latitude and longitude in 10^-7 degree.
    pub fn new(lat: i32, lon: i32) -> (r: Self)
        ensures
            r.lat == lat,
            r.lon == lon,
    {
        Self { lat, lon }
    }

    /// The latitude rounded to 0.1 degree, in tenths of a degree.
    pub fn lat_rounded(&self) -> (r: i32)
        ensures
            r == cell_of(*self).0,
            -2148 <= r <= 2148,
    {
        round_coordinate(self.lat)
    }

    /// The longitude rounded to 0.1 degree, in tenths of a degree.
    pub fn lon_rounded(&self) -> (r: i32)
        ensures
            r == cell_of(*self).1,
            -2148 <= r <= 2148,
    {
        round_coordinate(self.lon)
    }
}

fn round_coordinate(x: i32) -> (r: i32)
    ensures
        r == round_to_cell(x as int),
        -2148 <= r <= 2148,
{
    let v: i64 = x as i64;
    if v >= 0 {
        ((v + 500000) / 1000000) as i32
    } else {
        (-((-v + 500000) / 1000000)) as i32
    }
}

/// Two coordinates are equal when they lie in the same grid cell.
impl PartialEq for Coordinates {
    fn eq(&self, other: &Coordinates) -> (r: bool) {
        self.lat_rounded() == other.lat_rounded() && self.lon_rounded() == other.lon_rounded()
    }
}

impl vstd::std_specs::cmp::PartialEqSpecImpl for Coordinates {
    open spec fn obeys_eq_spec() -> bool {
        true
    }

    open spec fn eq_spec(&self, other: &Coordinates) -> bool {
        cell_of(*self) == cell_of(*other)
    }
}

/// `d` measures the distance in meters between any two positions, and gives
/// one answer for each pair.
pub open spec fn is_metric<D: Fn(Coordinates, Coordinates) -> u32>(d: D) -> bool {
    &&& forall|a: Coordinates, b: Coordinates| #[trigger] d.requires((a, b))
    &&& forall|a: Coordinates, b: Coordinates, x: u32, y: u32|
        #[trigger] d.ensures((a, b), x) && #[trigger] d.ensures((a, b), y) ==> x == y
}

/// The distance that metric `d` gives from `a` to `b`: the one answer it gives.
pub open spec fn measure<D: Fn(Coordinates, Coordinates) -> u32>(
    d: D,
    a: Coordinates,
    b: Coordinates,
) -> u32 {
    choose|x: u32| d.ensures((a, b), x)
}

/// One key/value tag of an OpenStreetMap object, as bytes.
#[derive(Debug, Clone)]
pub struct Tag {
    pub key: Vec<u8>,
    pub value: Vec<u8>,
}

/// An OpenStreetMap node: its id, position and tags.
#[derive(Debug, Clone)]
pub struct OsmNode {
    pub id: i64,
    pub coordinates: Coordinates,
    pub tags: Vec<Tag>,
}

/// An OpenStreetMap way: its id, the ids of its nodes in order, and its tags.
#[derive(Debug, Clone)]
pub struct OsmWay {
    pub id: i64,
    pub nodes: Vec<i64>,
    pub tags: Vec<Tag>,
}

/// The value of the first tag with key `key`.
pub open spec fn tag_value(tags: Seq<Tag>, key: Seq<u8>) -> Option<Seq<u8>>
    decreases tags.len(),
{
    if tags.len() == 0 {
        None
    } else if tags[0].key@ == key {
        Some(tags[0].value@)
    } else {
        tag_value(tags.drop_first(), key)
    }
}

/// The tags hold `key` with value `value`.
pub open spec fn has_tag(tags: Seq<Tag>, key: Seq<u8>, value: Seq<u8>) -> bool {
    tag_value(tags, key) == Some(value)
}

/// The position of the first tag with key `key`.
pub fn find_tag(tags: &Vec<Tag>, key: &[u8]) -> (r: Option<usize>)
    ensures
        match r {
            Some(i) => i < tags@.len() && tag_value(tags@, key@) == Some(tags@[i as int].value@),
            None => tag_value(tags@, key@) is None,
        },
{
    let mut i: usize = 0;
    assert(tags@.subrange(0, tags@.len() as int) =~= tags@);
    while i < tags.len()
        invariant
            i <= tags@.len(),
            tag_value(tags@, key@) == tag_value(tags@.subrange(i as int, tags@.len() as int), key@),
        decreases tags@.len() - i,
    {
        let ghost rest = tags@.subrange(i as int, tags@.len() as int);
        assert(rest.drop_first() =~= tags@.subrange(i + 1, tags@.len() as int));
        if bytes_eq(tags[i].key.as_slice(), key) {
            return Some(i);
        }
        i = i + 1;
    }
    None
}

/// Whether the tags hold `key` with value `value`.
pub fn tags_contain(tags: &Vec<Tag>, key: &[u8], value: &[u8]) -> (r: bool)
    ensures
        r == has_tag(tags@, key@, value@),
{
    match find_tag(tags, key) {
        Some(i) => bytes_eq(tags[i].value.as_slice(), value),
        None => false,
    }
}

/// A way is one-way when its `oneway` tag is `yes`; without the tag it is not.
pub open spec fn way_is_oneway(way: OsmWay) -> bool {
    has_tag(way.tags@, word_oneway(), word_yes())
}

/// Whether traffic on the way may only follow the order of its nodes.
pub fn is_oneway(way: &OsmWay) -> (r: bool)
    ensures
        r == way_is_oneway(*way),
{
    let key = oneway_bytes();
    let yes = yes_bytes();
    tags_contain(&way.tags, key.as_slice(), yes.as_slice())
}

/// The bytes of `oneway`.
pub open spec fn word_oneway() -> Seq<u8> {
    seq![111u8, 110, 101, 119, 97, 121]
}

/// The bytes of `oneway`, to compare tags with.
pub fn oneway_bytes() -> (r: Vec<u8>)
    ensures
        r@ == word_oneway(),
{
    let r = vec![111u8, 110, 101, 119, 97, 121];
    assert(r@ =~= word_oneway());
    r
}

/// The bytes of `yes`.
pub open spec fn word_yes() -> Seq<u8> {
    seq![121u8, 101, 115]
}

/// The bytes of `yes`, to compare tags with.
pub fn yes_bytes() -> (r: Vec<u8>)
    ensures
        r@ == word_yes(),
{
    let r = vec![121u8, 101, 115];
    assert(r@ =~= word_yes());
    r
}

/// The bytes of `highway`.
pub open spec fn word_highway() -> Seq<u8> {
    seq![104u8, 105, 103, 104, 119, 97, 121]
}

/// The bytes of `highway`, to compare tags with.
pub fn highway_bytes() -> (r: Vec<u8>)
    ensures
        r@ == word_highway(),
{
    let r = vec![104u8, 105, 103, 104, 119, 97, 121];
    assert(r@ =~= word_highway());
    r
}

/// The bytes of `maxspeed`.
pub open spec fn word_maxspeed() -> Seq<u8> {
    seq![109u8, 97, 120, 115, 112, 101, 101, 100]
}

/// The bytes of `maxspeed`, to compare tags with.
pub fn maxspeed_bytes() -> (r: Vec<u8>)
    ensures
        r@ == word_maxspeed(),
{
    let r = vec![109u8, 97, 120, 115, 112, 101, 101, 100];
    assert(r@ =~= word_maxspeed());
    r
}

/// The bytes of `amenity`.
pub open spec fn word_amenity() -> Seq<u8> {
    seq![97u8, 109, 101, 110, 105, 116, 121]
}

/// The bytes of `amenity`, to compare tags with.
pub fn amenity_bytes() -> (r: Vec<u8>)
    ensures
        r@ == word_amenity(),
{
    let r = vec![97u8, 109, 101, 110, 105, 116, 121];
    assert(r@ =~= word_amenity());
    r
}

/// The bytes of `charging_station`.
pub open spec fn word_charging_station() -> Seq<u8> {
    seq![99u8, 104, 97, 114, 103, 105, 110, 103, 95, 115, 116, 97, 116, 105, 111, 110]
}

/// The bytes of `charging_station`, to compare tags with.
pub fn charging_station_bytes() -> (r: Vec<u8>)
    ensures
        r@ == word_charging_station(),
{
    let r = vec![99u8, 104, 97, 114, 103, 105, 110, 103, 95, 115, 116, 97, 116, 105, 111, 110];
    assert(r@ =~= word_charging_station());
    r
}

/// The bytes of `car`.
pub open spec fn word_car() -> Seq<u8> {
    seq![99u8, 97, 114]
}

/// The bytes of `car`, to compare tags with.
pub fn car_bytes() -> (r: Vec<u8>)
    ensures
        r@ == word_car(),
{
    let r = vec![99u8, 97, 114];
    assert(r@ =~= word_car());
    r
}

/// The bytes of `bicycle`.
pub open spec fn word_bicycle() -> Seq<u8> {
    seq![98u8, 105, 99, 121, 99, 108, 101]
}

/// The bytes of `bicycle`, to compare tags with.
pub fn bicycle_bytes() -> (r: Vec<u8>)
    ensures
        r@ == word_bicycle(),
{
    let r = vec![98u8, 105, 99, 121, 99, 108, 101];
    assert(r@ =~= word_bicycle());
    r
}

/// The bytes of ` mph`.
pub open spec fn word_mph() -> Seq<u8> {
    seq![32u8, 109, 112, 104]
}

/// The bytes of ` mph`, to compare tags with.
pub fn mph_bytes() -> (r: Vec<u8>)
    ensures
        r@ == word_mph(),
{
    let r = vec![32u8, 109, 112, 104];
    assert(r@ =~= word_mph());
    r
}
} // verus!
