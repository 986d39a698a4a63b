//! Routing under a finite driving range: charging stops are inserted until the
//! rest of the way to the goal is within a full charge.
use vstd::prelude::*;

use crate::error::RouteError;
use crate::graph::ChargingNode;
use crate::options::{charging_admits, charging_for, ChargingOptions, Transport};
use crate::osm::{is_metric, measure, Coordinates};
use crate::router::{sat, Route, Router};

verus! {

/// The sum of `s`, each partial sum capped at `u32::MAX`.
pub open spec fn capped_sum(s: Seq<u32>) -> int
    decreases s.len(),
{
    if s.len() == 0 {
        0
    } else {
        sat(capped_sum(s.drop_last()) + s.last())
    }
}

/// Paths joined, the last first: each path runs from its end back to its
/// start, so the whole runs from the goal back to the start.
pub open spec fn joined(lps: Seq<Seq<Coordinates>>) -> Seq<Coordinates>
    decreases lps.len(),
{
    if lps.len() == 0 {
        Seq::empty()
    } else {
        lps.last() + joined(lps.drop_last())
    }
}

/// The positions of each leg.
pub open spec fn leg_paths(legs: Seq<Vec<Coordinates>>) -> Seq<Seq<Coordinates>> {
    legs.map_values(|l: Vec<Coordinates>| l@)
}

/// The most charging stops a plan may make before it gives up.
pub const MAX_STOPS: usize = 100;

impl<'a, D: Fn(Coordinates, Coordinates) -> u32> Router<'a, D> {
    /// Station `c` charges this router's vehicles and lies near enough to `s`
    /// that one and a half times its straight-line distance is under `range`.
    pub open spec fn eligible(&self, c: ChargingNode, s: Coordinates, range: u32) -> bool {
        &&& charging_admits(c.charging_options, charging_for(self.mode))
        &&& 3 * measure(self.metric, s, c.coordinates) < 2 * range
    }

    /// Station `a` is at least as good a stop as `b`: farther from `s`, or as
    /// far and no farther from `goal`.
    pub open spec fn no_worse(&self, a: ChargingNode, b: ChargingNode, s: Coordinates, goal: Coordinates) -> bool {
        let fa = measure(self.metric, s, a.coordinates);
        let fb = measure(self.metric, s, b.coordinates);
        fa > fb || (fa == fb && measure(self.metric, goal, a.coordinates) <= measure(
            self.metric,
            goal,
            b.coordinates,
        ))
    }

    /// Scanning the first `k` stations for the next stop from `s` towards
    /// `goal` with `range` meters left: a later eligible station replaces the
    /// one kept when it is farther from `s`, or as far and nearer to `goal`.
    pub open spec fn station_pick(&self, s: Coordinates, goal: Coordinates, range: u32, k: int) -> Option<usize>
        decreases k,
    {
        if k <= 0 {
            None
        } else {
            let p = self.station_pick(s, goal, range, k - 1);
            let st = self.graph.charging_nodes@[k - 1];
            if self.eligible(st, s, range) && (p is None || ({
                let b = self.graph.charging_nodes@[p->0 as int];
                let fa = measure(self.metric, s, st.coordinates);
                let fb = measure(self.metric, s, b.coordinates);
                fa > fb || (fa == fb && measure(self.metric, goal, st.coordinates) < measure(
                    self.metric,
                    goal,
                    b.coordinates,
                ))
            })) {
                Some((k - 1) as usize)
            } else {
                p
            }
        }
    }

    /// The next stop from `s` towards `goal` with `range` meters left: the
    /// position of the station picked, or `s` itself when none is eligible.
    #[verifier::opaque]
    pub open spec fn optimal_station(&self, s: Coordinates, goal: Coordinates, range: u32) -> Coordinates {
        match self.station_pick(s, goal, range, self.graph.charging_nodes@.len() as int) {
            Some(b) => self.graph.charging_nodes@[b as int].coordinates,
            None => s,
        }
    }

    /// Where to charge next on the way from `actual_start` to `actual_goal`
    /// with `current_range` meters left: of the stations that charge this
    /// vehicle and lie within two thirds of the range in a straight line, the
    /// farthest from the start, and of those the nearest to the goal (the
    /// first such in the registry). Without any, the start itself.
    pub fn get_optimal_charging_station_coords(
        &self,
        actual_start: &Coordinates,
        actual_goal: &Coordinates,
        current_range: u32,
    ) -> (r: Coordinates)
        requires
            is_metric(self.metric),
        ensures
            r == self.optimal_station(*actual_start, *actual_goal, current_range),
            (forall|i: int|
                0 <= i < self.graph.charging_nodes@.len() ==> !self.eligible(
                    #[trigger] self.graph.charging_nodes@[i],
                    *actual_start,
                    current_range,
                )) ==> r == *actual_start,
            (exists|i: int|
                0 <= i < self.graph.charging_nodes@.len() && self.eligible(
                    #[trigger] self.graph.charging_nodes@[i],
                    *actual_start,
                    current_range,
                )) ==> exists|i: int|
                0 <= i < self.graph.charging_nodes@.len() && #[trigger] self.graph.charging_nodes@[i].coordinates == r
                    && self.eligible(self.graph.charging_nodes@[i], *actual_start, current_range)
                    && forall|j: int|
                    0 <= j < self.graph.charging_nodes@.len() && self.eligible(
                        #[trigger] self.graph.charging_nodes@[j],
                        *actual_start,
                        current_range,
                    ) ==> self.no_worse(
                        self.graph.charging_nodes@[i],
                        self.graph.charging_nodes@[j],
                        *actual_start,
                        *actual_goal,
                    ),
    {
        proof {
            reveal(Router::optimal_station);
        }
        let stations = &self.graph.charging_nodes;
        let required = ChargingOptions::from(self.mode);
        let mut best: Option<usize> = None;
        let mut best_from: u32 = 0;
        let mut best_to: u32 = u32::MAX;
        let mut i: usize = 0;
        while i < stations.len()
            invariant
                is_metric(self.metric),
                *stations == self.graph.charging_nodes,
                required == charging_for(self.mode),
                i <= stations@.len(),
                best == self.station_pick(*actual_start, *actual_goal, current_range, i as int),
                best is None ==> forall|j: int|
                    0 <= j < i ==> !self.eligible(#[trigger] stations@[j], *actual_start, current_range),
                best matches Some(b) ==> {
                    &&& b < i
                    &&& self.eligible(stations@[b as int], *actual_start, current_range)
                    &&& best_from == measure(self.metric, *actual_start, stations@[b as int].coordinates)
                    &&& best_to == measure(self.metric, *actual_goal, stations@[b as int].coordinates)
                    &&& forall|j: int|
                        0 <= j < i && self.eligible(#[trigger] stations@[j], *actual_start, current_range)
                            ==> self.no_worse(stations@[b as int], stations@[j], *actual_start, *actual_goal)
                },
            decreases stations@.len() - i,
        {
            let station = &stations[i];
            if station.charging_options.contains(required) {
                let from = (self.metric)(*actual_start, station.coordinates);
                let to = (self.metric)(*actual_goal, station.coordinates);
                assert(from == measure(self.metric, *actual_start, stations@[i as int].coordinates));
                assert(to == measure(self.metric, *actual_goal, stations@[i as int].coordinates));
                if 3 * (from as u64) < 2 * (current_range as u64) {
                    let better = match best {
                        None => true,
                        Some(_) => from > best_from || (from == best_from && to < best_to),
                    };
                    if better {
                        best = Some(i);
                        best_from = from;
                        best_to = to;
                    }
                }
            }
            i = i + 1;
        }
        match best {
            Some(b) => stations[b].coordinates,
            None => *actual_start,
        }
    }

    /// `v` are the stops a plan from `start` to `goal` makes, in order: the
    /// first is the stop chosen from `start` with `current_range` left, each
    /// later one the stop chosen from the one before with a full `max_range`.
    pub open spec fn chosen_stops(
        &self,
        start: Coordinates,
        goal: Coordinates,
        current_range: u32,
        max_range: u32,
        v: Seq<Coordinates>,
    ) -> bool {
        &&& v.len() >= 1 ==> v[0] == self.optimal_station(start, goal, current_range)
        &&& forall|i: int|
            1 <= i < v.len() ==> #[trigger] v[i] == self.optimal_station(v[i - 1], goal, max_range)
    }

    /// A charging leg from `from` to the node stop `stop` snaps to has length
    /// `d`, time `t` and path `lp`: those of an answer to that query, its path
    /// without the vertex it shares with the next leg; or nothing when the
    /// leg starts at that node already.
    pub open spec fn leg_ok(
        &self,
        from: Coordinates,
        stop: Coordinates,
        d: u32,
        t: u32,
        lp: Seq<Coordinates>,
    ) -> bool {
        match self.graph.snap(stop, self.mode, self.metric) {
            Ok(n) => (exists|leg: Route| #[trigger]
                self.path_answer(from, self.graph.nodes@[n as int].coordinates, leg) && leg.distance == d
                    && leg.time == t && lp == leg.path@.drop_first()) || (self.path_error(
                from,
                self.graph.nodes@[n as int].coordinates,
            ) == Some(RouteError::StartIsGoal) && d == 0 && t == 0 && lp.len() == 0),
            Err(_) => false,
        }
    }

    /// Some answer from `p` to `goal` is longer than `max_range`.
    pub open spec fn out_of_reach(&self, p: Coordinates, goal: Coordinates, max_range: u32) -> bool {
        exists|rest: Route| #[trigger] self.path_answer(p, goal, rest) && rest.distance > max_range
    }

    /// The leg through stop `stop`, begun at `from`, fails with `e`: the stop
    /// does not snap, the way to its node fails (other than by being there
    /// already), or the way on from it to `goal` fails.
    pub open spec fn stop_fails(&self, from: Coordinates, stop: Coordinates, goal: Coordinates, e: RouteError) -> bool {
        match self.graph.snap(stop, self.mode, self.metric) {
            Err(x) => x == e,
            Ok(n) => (self.path_error(from, self.graph.nodes@[n as int].coordinates) == Some(e) && e
                != RouteError::StartIsGoal) || self.path_error(stop, goal) == Some(e),
        }
    }

    /// The route from `start` to `goal` for a vehicle with `current_range`
    /// meters left that a full charge brings to `max_range` meters. When the
    /// direct route is within range it is returned as it is. Otherwise the
    /// plan charges at the stop that `get_optimal_charging_station_coords`
    /// picks, again and again, until the rest of the way is within a full
    /// charge; the legs are joined, their lengths and times summed (capped at
    /// `u32::MAX`), and the stops listed in order. A stop that snaps to the
    /// node the leg starts from adds an empty leg. After `MAX_STOPS` stops the
    /// plan gives up.
    pub fn plan_route(
        &self,
        start: &Coordinates,
        goal: &Coordinates,
        current_range: u32,
        max_range: u32,
    ) -> (r: Result<Route, RouteError>)
        requires
            self.graph.wf(),
            is_metric(self.metric),
            self.mode == Transport::Car || self.mode == Transport::Bike,
        ensures
            match self.path_error(*start, *goal) {
                Some(e) => r == Err::<Route, RouteError>(e),
                None => match r {
                    Ok(route) => match route.visited_charging {
                        None => self.path_answer(*start, *goal, route) && route.distance <= current_range,
                        Some(v) => {
                            &&& exists|direct: Route| #[trigger]
                                self.path_answer(*start, *goal, direct) && direct.distance > current_range
                            &&& 1 <= v@.len() <= MAX_STOPS
                            &&& self.chosen_stops(*start, *goal, current_range, max_range, v@)
                            &&& forall|i: int|
                                0 <= i < v@.len() - 1 ==> #[trigger] self.out_of_reach(v@[i], *goal, max_range)
                            &&& exists|ds: Seq<u32>, ts: Seq<u32>, lps: Seq<Seq<Coordinates>>| {
                                &&& ds.len() == v@.len() + 1
                                &&& ts.len() == v@.len() + 1
                                &&& lps.len() == v@.len() + 1
                                &&& route.distance == capped_sum(ds)
                                &&& route.time == capped_sum(ts)
                                &&& route.path@ == joined(lps)
                                &&& forall|i: int|
                                    0 <= i < v@.len() ==> self.leg_ok(
                                        if i == 0 {
                                            *start
                                        } else {
                                            v@[i - 1]
                                        },
                                        v@[i],
                                        #[trigger] ds[i],
                                        ts[i],
                                        lps[i],
                                    )
                                &&& exists|last: Route| #[trigger]
                                    self.path_answer(v@.last(), *goal, last) && last.distance == ds.last()
                                        && last.time == ts.last() && last.path@ == lps.last()
                                        && last.distance <= max_range
                            }
                        },
                    },
                    Err(e) => (exists|direct: Route| #[trigger]
                        self.path_answer(*start, *goal, direct) && direct.distance > current_range)
                        && exists|stops: Seq<Coordinates>| {
                        &&& 1 <= stops.len() <= MAX_STOPS
                        &&& forall|i: int|
                            0 <= i < stops.len() - 1 ==> #[trigger] self.out_of_reach(stops[i], *goal, max_range)
                        &&& #[trigger] self.chosen_stops(*start, *goal, current_range, max_range, stops)
                        &&& (e == RouteError::UnreasonableRange && stops.len() == MAX_STOPS && exists|
                            rest: Route,
                        | #[trigger]
                            self.path_answer(stops.last(), *goal, rest) && rest.distance > max_range)
                            || self.stop_fails(
                            if stops.len() == 1 {
                                *start
                            } else {
                                stops[stops.len() - 2]
                            },
                            stops.last(),
                            *goal,
                            e,
                        )
                    },
                },
            },
    {
        let direct = match self.shortest_path(start, goal) {
            Ok(route) => route,
            Err(e) => {
                return Err(e);
            },
        };
        if direct.distance <= current_range {
            return Ok(direct);
        }
        let ghost first = direct;
        let mut required = direct.distance;
        let mut current = current_range;
        let mut legs: Vec<Vec<Coordinates>> = Vec::new();
        let mut distance: u32 = 0;
        let mut time: u32 = 0;
        let mut stops: Vec<Coordinates> = Vec::new();
        let mut from = *start;
        let mut count: usize = 0;
        let ghost mut ds: Seq<u32> = Seq::empty();
        let ghost mut ts: Seq<u32> = Seq::empty();
        let ghost mut last_time: u32 = 0;
        let ghost mut last_path: Seq<Coordinates> = Seq::empty();
        while required > current
            invariant
                leg_paths(legs@).len() == ds.len(),
                forall|i: int|
                    0 <= i < count && (i < count - 1 || required > current) ==> #[trigger] self.out_of_reach(
                        stops@[i],
                        *goal,
                        max_range,
                    ),
                count > 0 && required <= current ==> leg_paths(legs@).last() == last_path,
                distance == capped_sum(ds),
                time == capped_sum(ts),
                ds.len() == count + (if count > 0 && required <= current { 1int } else { 0int }),
                ts.len() == ds.len(),
                forall|i: int|
                    0 <= i < count ==> self.leg_ok(
                        if i == 0 {
                            *start
                        } else {
                            stops@[i - 1]
                        },
                        stops@[i],
                        #[trigger] ds[i],
                        ts[i],
                        leg_paths(legs@)[i],
                    ),
                count > 0 && required <= current ==> ds.last() == required && ts.last() == last_time,
                count > 0 ==> exists|rest: Route| #[trigger]
                    self.path_answer(from, *goal, rest) && rest.distance == required && rest.time
                        == last_time && rest.path@ == last_path,
                self.graph.wf(),
                is_metric(self.metric),
                self.mode == Transport::Car || self.mode == Transport::Bike,
                self.path_error(*start, *goal) is None,
                self.path_answer(*start, *goal, first) && first.distance > current_range,
                count <= MAX_STOPS,
                count == MAX_STOPS ==> required <= current,
                count == 0 ==> required > current,
                stops@.len() == count,
                count > 0 ==> from == stops@[count - 1],
                count == 0 ==> from == *start && current == current_range,
                count > 0 ==> current == max_range,
                self.chosen_stops(*start, *goal, current_range, max_range, stops@),
            decreases MAX_STOPS - count,
        {
            let stop = self.get_optimal_charging_station_coords(&from, goal, current);
            let ghost before = stops@;
            stops.push(stop);
            proof {
                assert forall|i: int| 1 <= i < stops@.len() implies #[trigger] stops@[i] == self.optimal_station(
                    stops@[i - 1],
                    *goal,
                    max_range,
                ) by {
                    if i < count {
                        assert(stops@[i] == before[i] && stops@[i - 1] == before[i - 1]);
                    }
                }
                assert(self.chosen_stops(*start, *goal, current_range, max_range, stops@));
                assert(stops@.last() == stop);
                assert(count > 0 ==> stops@[stops@.len() - 2] == from);
            }
            let nearest = match self.graph.nearest_neighbor(&stop, self.mode, &self.metric) {
                Ok(n) => n,
                Err(e) => {
                    return Err(e);
                },
            };
            let target = self.graph.nodes[nearest].coordinates;
            let mut to_stop = match self.shortest_path(&from, &target) {
                Ok(route) => route,
                Err(RouteError::StartIsGoal) => Route::new(Vec::new(), 0, 0, None),
                Err(e) => {
                    return Err(e);
                },
            };
            let ghost d = to_stop.distance;
            let ghost t = to_stop.time;
            let ghost full = to_stop.path@;
            let ghost legs0 = legs@;
            from = stop;
            distance = distance.saturating_add(to_stop.distance);
            time = time.saturating_add(to_stop.time);
            current = max_range;
            if to_stop.path.len() > 0 {
                to_stop.path.remove(0);
            }
            legs.push(to_stop.path);
            proof {
                assert(leg_paths(legs@) =~= leg_paths(legs0).push(to_stop.path@));
                if full.len() > 0 {
                    assert(to_stop.path@ =~= full.drop_first());
                }
                let nds = ds.push(d);
                let nts = ts.push(t);
                assert(nds.drop_last() =~= ds);
                assert(nts.drop_last() =~= ts);
                assert forall|i: int|
                    0 <= i < count + 1 implies self.leg_ok(
                        if i == 0 {
                            *start
                        } else {
                            stops@[i - 1]
                        },
                        stops@[i],
                        #[trigger] nds[i],
                        nts[i],
                        leg_paths(legs@)[i],
                    ) by {
                    if i < count {
                        assert(nds[i] == ds[i]);
                        assert(nts[i] == ts[i]);
                        assert(leg_paths(legs@)[i] == leg_paths(legs0)[i]);
                    } else {
                        assert(stops@[i] == stop);
                        assert(leg_paths(legs@)[i] == to_stop.path@);
                    }
                }
                ds = nds;
                ts = nts;
            }
            assert(distance == sat(capped_sum(ds.drop_last()) + ds.last()));
            assert(distance == capped_sum(ds));
            assert(time == sat(capped_sum(ts.drop_last()) + ts.last()));
            assert(time == capped_sum(ts));
            let to_goal = match self.shortest_path(&from, goal) {
                Ok(route) => route,
                Err(e) => {
                    return Err(e);
                },
            };
            if to_goal.distance <= current {
                let ghost legs1 = legs@;
                distance = distance.saturating_add(to_goal.distance);
                time = time.saturating_add(to_goal.time);
                proof {
                    last_path = to_goal.path@;
                }
                legs.push(to_goal.path);
                proof {
                    assert(leg_paths(legs@) =~= leg_paths(legs1).push(last_path));
                    let nds = ds.push(to_goal.distance);
                    let nts = ts.push(to_goal.time);
                    assert(nds.drop_last() =~= ds);
                    assert(nts.drop_last() =~= ts);
                    assert forall|i: int|
                        0 <= i < count + 1 implies self.leg_ok(
                            if i == 0 {
                                *start
                            } else {
                                stops@[i - 1]
                            },
                            stops@[i],
                            #[trigger] nds[i],
                            nts[i],
                            leg_paths(legs@)[i],
                        ) by {
                        assert(nds[i] == ds[i]);
                        assert(nts[i] == ts[i]);
                        assert(leg_paths(legs@)[i] == leg_paths(legs1)[i]);
                    }
                    ds = nds;
                    ts = nts;
                }
                assert(distance == sat(capped_sum(ds.drop_last()) + ds.last()));
                assert(distance == capped_sum(ds));
                assert(time == sat(capped_sum(ts.drop_last()) + ts.last()));
                assert(time == capped_sum(ts));
            } else {
                proof {
                    last_path = to_goal.path@;
                    assert(self.out_of_reach(from, *goal, max_range));
                }
            }
            required = to_goal.distance;
            proof {
                last_time = to_goal.time;
            }
            count = count + 1;
            if count >= MAX_STOPS && required > current {
                return Err(RouteError::UnreasonableRange);
            }
        }
        assert(count >= 1);
        assert(stops@.last() == from);
        let path = join_legs(&legs);
        let ghost sv = stops@;
        proof {
            assert(self.path_answer(*start, *goal, first) && first.distance > current_range);
            assert(1 <= sv.len() <= MAX_STOPS);
            let rest = choose|rest: Route| #[trigger]
                self.path_answer(from, *goal, rest) && rest.distance == required && rest.time == last_time
                    && rest.path@ == last_path;
            assert(self.path_answer(sv.last(), *goal, rest) && rest.distance <= max_range);
            assert(ds.len() == sv.len() + 1);
            assert(rest.distance == ds.last());
            assert(rest.time == ts.last());
            assert(rest.path@ == leg_paths(legs@).last());
            assert(path@ == joined(leg_paths(legs@)));
        }
        let route = Route::new(path, time, distance, Some(stops));
        assert(route.visited_charging matches Some(v) && v@ == sv);
        Ok(route)
    }

    /// The route from `actual_start` to the node that the charging station
    /// chosen for `current_range` snaps to; that snap's failure is passed on.
    pub fn calc_route_with_charging_station(
        &self,
        actual_start: &Coordinates,
        actual_goal: &Coordinates,
        current_range: u32,
    ) -> (r: Result<Route, RouteError>)
        requires
            self.graph.wf(),
            is_metric(self.metric),
            self.mode == Transport::Car || self.mode == Transport::Bike,
        ensures
            match self.graph.snap(
                self.optimal_station(*actual_start, *actual_goal, current_range),
                self.mode,
                self.metric,
            ) {
                Err(e) => r == Err::<Route, RouteError>(e),
                Ok(n) => match self.path_error(*actual_start, self.graph.nodes@[n as int].coordinates) {
                    Some(e) => r == Err::<Route, RouteError>(e),
                    None => r matches Ok(route) && self.path_answer(
                        *actual_start,
                        self.graph.nodes@[n as int].coordinates,
                        route,
                    ),
                },
            },
    {
        let coords = self.get_optimal_charging_station_coords(actual_start, actual_goal, current_range);
        let nearest = match self.graph.nearest_neighbor(&coords, self.mode, &self.metric) {
            Ok(n) => n,
            Err(e) => {
                return Err(e);
            },
        };
        let target = self.graph.nodes[nearest].coordinates;
        self.shortest_path(actual_start, &target)
    }
}

/// The legs' positions one after another, the last leg first.
fn join_legs(legs: &Vec<Vec<Coordinates>>) -> (r: Vec<Coordinates>)
    ensures
        r@ == joined(leg_paths(legs@)),
{
    let ghost lps = leg_paths(legs@);
    let mut path: Vec<Coordinates> = Vec::new();
    let mut k: usize = legs.len();
    assert(lps.subrange(0, k as int) =~= lps);
    while k > 0
        invariant
            k <= legs@.len(),
            lps == leg_paths(legs@),
            path@ + joined(lps.subrange(0, k as int)) == joined(lps),
        decreases k,
    {
        k = k - 1;
        let leg = &legs[k];
        let ghost before = path@;
        let mut j: usize = 0;
        while j < leg.len()
            invariant
                j <= leg@.len(),
                path@ == before + leg@.subrange(0, j as int),
            decreases leg@.len() - j,
        {
            path.push(leg[j]);
            j = j + 1;
            assert(path@ =~= before + leg@.subrange(0, j as int));
        }
        proof {
            let sub = lps.subrange(0, k + 1);
            assert(sub.drop_last() =~= lps.subrange(0, k as int));
            assert(sub.last() == leg@);
            assert(leg@.subrange(0, leg@.len() as int) =~= leg@);
            assert(joined(sub) == leg@ + joined(lps.subrange(0, k as int)));
            assert(path@ + joined(lps.subrange(0, k as int)) =~= before + joined(sub));
        }
    }
    assert(lps.subrange(0, 0) =~= Seq::<Seq<Coordinates>>::empty());
    assert(path@ + Seq::<Coordinates>::empty() =~= path@);
    path
}

} // verus!
