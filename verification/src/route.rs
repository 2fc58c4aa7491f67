//! Route evaluation: speed normalization, great-circle distance, clamped
//! flight time, the time-or-distance range constraint, and the route
//! record itself.
//!
//! A route refers to its departure and arrival airports by index into
//! the catalog, carries its distance in thousandths of a nautical mile,
//! and its time as whole hours and minutes, each clamped for display:
//! hours at 99 and minutes at 59.

use vstd::prelude::*;

verus! {

use vstd::arithmetic::div_mod::{lemma_fundamental_div_mod, lemma_div_is_ordered,
    lemma_div_pos_is_pos};
use crate::geo::{spec_distance_milli_nm, distance_milli_nm};
use crate::airport::{Airport, catalog_wf, spec_has_icao, find_by_icao};

/// Thousandths of a knot per Mach 1: 666.739 knots.
pub const KNOTS_PER_MACH_MILLI: u64 = 666_739;

/// A requested cruise speed: a Mach multiple in thousandths (850 is
/// Mach 0.85), or a whole number of knots.
#[derive(Clone, Copy, Debug, PartialEq, Eq, Structural)]
pub enum Speed {
    Mach(u32),
    Knots(u32),
}

/// A speed normalized to thousandths of a knot.
pub open spec fn spec_as_knots_milli(s: Speed) -> int {
    match s {
        Speed::Mach(m) => m * KNOTS_PER_MACH_MILLI / 1000,
        Speed::Knots(k) => k * 1000,
    }
}

impl Speed {
    /// The speed in thousandths of a knot: a Mach value is converted by
    /// the fixed constant, a knots value is scaled through unchanged.
    pub fn as_knots(self) -> (r: u64)
        ensures
            r as int == spec_as_knots_milli(self),
            r <= 4_294_967_295_000,
    {
        match self {
            Speed::Mach(m) => {
                proof {
                    lemma_div_is_ordered((m as int) * (KNOTS_PER_MACH_MILLI as int),
                        4_294_967_295int * 666_739, 1000);
                    assert((m as int) * (KNOTS_PER_MACH_MILLI as int)
                        <= 4_294_967_295int * 666_739) by (nonlinear_arith)
                        requires m <= 4_294_967_295u32;
                    assert(0 <= (m as int) * (KNOTS_PER_MACH_MILLI as int)) by (nonlinear_arith)
                        requires 0 <= m;
                    lemma_div_pos_is_pos((m as int) * (KNOTS_PER_MACH_MILLI as int), 1000);
                }
                (m as u64) * KNOTS_PER_MACH_MILLI / 1000
            },
            Speed::Knots(k) => (k as u64) * 1000,
        }
    }
}

/// A flight time for display: whole hours clamped at 99, whole minutes
/// clamped at 59.
#[derive(Clone, Copy, Debug, PartialEq, Eq, Structural)]
pub struct Time {
    pub hour: u8,
    pub minutes: u8,
}

/// The clamped time a distance and a speed imply: whole hours of
/// distance / speed, clamped at 99; then whole minutes of the remainder,
/// clamped at 59.  A speed of zero saturates the display entirely.
pub open spec fn spec_time_from(d: int, k: int) -> Time
    recommends
        d >= 0,
{
    if k <= 0 {
        Time { hour: 99, minutes: 59 }
    } else {
        let h = d / k;
        if h <= 99 {
            Time { hour: h as u8, minutes: ((d % k) * 60 / k) as u8 }
        } else {
            let m = (d - 99 * k) * 60 / k;
            Time { hour: 99, minutes: if m <= 59 { m as u8 } else { 59 } }
        }
    }
}

/// The clamps hold of every distance and speed: the hour field never
/// exceeds 99 and the minutes field never exceeds 59.
pub proof fn lemma_time_clamped(d: int, k: int)
    requires
        d >= 0,
    ensures
        spec_time_from(d, k).hour <= 99,
        spec_time_from(d, k).minutes <= 59,
{
    if k > 0 {
        let h = d / k;
        lemma_div_pos_is_pos(d, k);
        if h <= 99 {
            let rem = d % k;
            assert(0 <= rem < k);
            let m = rem * 60 / k;
            assert(rem * 60 < 60 * k && 0 <= rem * 60) by (nonlinear_arith)
                requires 0 <= rem < k;
            lemma_fundamental_div_mod(rem * 60, k);
            assert(k * m <= rem * 60);
            assert(m < 60) by (nonlinear_arith)
                requires k * m <= rem * 60, rem * 60 < 60 * k, 0 < k;
            lemma_div_pos_is_pos(rem * 60, k);
        } else {
            lemma_fundamental_div_mod(d, k);
            assert(d >= 100 * k) by (nonlinear_arith)
                requires d == k * (d / k) + d % k, d / k >= 100, d % k >= 0, k > 0;
            assert((d - 99 * k) * 60 >= 0) by (nonlinear_arith)
                requires d - 99 * k >= 0;
            lemma_div_pos_is_pos((d - 99 * k) * 60, k);
        }
    }
}

impl Time {
    /// A time built from raw fields, clamped: hours at 99, minutes at 59.
    pub fn new(hour: u8, minutes: u8) -> (t: Time)
        ensures
            t.hour == if hour <= 99 { hour } else { 99 },
            t.minutes == if minutes <= 59 { minutes } else { 59 },
    {
        Time {
            hour: if hour <= 99 { hour } else { 99 },
            minutes: if minutes <= 59 { minutes } else { 59 },
        }
    }

    /// The clamped flight time over a distance in thousandths of a
    /// nautical mile at a speed.
    pub fn from_distance(distance_milli_nm: u64, speed: Speed) -> (t: Time)
        ensures
            t == spec_time_from(distance_milli_nm as int, spec_as_knots_milli(speed)),
            t.hour <= 99,
            t.minutes <= 59,
    {
        let d = distance_milli_nm;
        let k = speed.as_knots();
        proof {
            lemma_time_clamped(d as int, k as int);
        }
        if k == 0 {
            return Time { hour: 99, minutes: 59 };
        }
        let h = d / k;
        if h <= 99 {
            let rem = d % k;
            proof {
                assert((rem as int) * 60 < 60 * (k as int) && 0 <= (rem as int) * 60)
                    by (nonlinear_arith)
                    requires 0 <= rem < k;
            }
            let m = rem * 60 / k;
            Time { hour: h as u8, minutes: m as u8 }
        } else {
            proof {
                lemma_fundamental_div_mod(d as int, k as int);
                assert((d as int) >= 100 * (k as int)) by (nonlinear_arith)
                    requires
                        d as int == (k as int) * ((d / k) as int) + (d % k) as int,
                        (d / k) as int >= 100,
                        (d % k) as int >= 0,
                        k > 0;
            }
            let over = d - 99 * k;
            let m128 = (over as u128) * 60 / (k as u128);
            let m: u8 = if m128 > 59 {
                59
            } else {
                m128 as u8
            };
            Time { hour: 99, minutes: m }
        }
    }
}

/// An inclusive range with optional bounds: an absent minimum or maximum
/// means no bound on that side.
#[derive(Clone, Copy, Debug)]
pub struct Range<T> {
    pub min: Option<T>,
    pub max: Option<T>,
}

/// Whether a distance in thousandths of a nautical mile lies in a range.
pub open spec fn spec_in_dist_range(r: Range<u64>, v: u64) -> bool {
    &&& match r.min {
        Some(m) => v >= m,
        None => true,
    }
    &&& match r.max {
        Some(m) => v <= m,
        None => true,
    }
}

/// The order of clamped times: by hour, then by minutes.  This is the
/// natural order of the display representation, not of true elapsed
/// time, and the range check below follows it deliberately.
pub open spec fn spec_time_le(a: Time, b: Time) -> bool {
    a.hour < b.hour || (a.hour == b.hour && a.minutes <= b.minutes)
}

/// Whether a clamped time lies in a range, under the (hour, minutes)
/// order.
pub open spec fn spec_in_time_range(r: Range<Time>, v: Time) -> bool {
    &&& match r.min {
        Some(m) => spec_time_le(m, v),
        None => true,
    }
    &&& match r.max {
        Some(m) => spec_time_le(v, m),
        None => true,
    }
}

impl Range<u64> {
    /// Whether the value lies in the range, both bounds inclusive.
    pub fn within(&self, value: &u64) -> (r: bool)
        ensures
            r == spec_in_dist_range(*self, *value),
    {
        if let Some(min) = &self.min {
            if *value < *min {
                return false;
            }
        }
        if let Some(max) = &self.max {
            if *value > *max {
                return false;
            }
        }
        true
    }
}

fn time_le(a: &Time, b: &Time) -> (r: bool)
    ensures
        r == spec_time_le(*a, *b),
{
    a.hour < b.hour || (a.hour == b.hour && a.minutes <= b.minutes)
}

impl Range<Time> {
    /// Whether the time lies in the range, both bounds inclusive, under
    /// the (hour, minutes) order.
    pub fn within(&self, value: &Time) -> (r: bool)
        ensures
            r == spec_in_time_range(*self, *value),
    {
        if let Some(min) = &self.min {
            if !time_le(min, value) {
                return false;
            }
        }
        if let Some(max) = &self.max {
            if !time_le(value, max) {
                return false;
            }
        }
        true
    }
}

/// A range constraint on a computed route: on its time or on its
/// distance, a tagged choice of exactly one.
#[derive(Clone, Copy, Debug)]
pub enum TimeOrDistance {
    Time(Range<Time>),
    Distance(Range<u64>),
}

/// Whether a route's distance and time satisfy an optional constraint.
pub open spec fn spec_route_within(tod: Option<TimeOrDistance>, distance: u64, time: Time)
    -> bool {
    match tod {
        None => true,
        Some(TimeOrDistance::Time(r)) => spec_in_time_range(r, time),
        Some(TimeOrDistance::Distance(r)) => spec_in_dist_range(r, distance),
    }
}

/// The reason a search with an explicit identifier fails: the requested
/// identifier resolves to no airport of the catalog.  Distinct from an
/// empty result, which is a success.
#[derive(Clone, Copy, Debug, PartialEq, Eq, Structural)]
pub enum SearchError {
    DepartureNotFound,
    ArrivalNotFound,
}

impl SearchError {
    /// A short description of the failure.
    pub fn message(&self) -> (r: &'static str)
        ensures
            *self == SearchError::DepartureNotFound ==> r@ == "departure not found"@,
            *self == SearchError::ArrivalNotFound ==> r@ == "arrival not found"@,
    {
        match self {
            SearchError::DepartureNotFound => "departure not found",
            SearchError::ArrivalNotFound => "arrival not found",
        }
    }
}

/// A computed route: departure and arrival as indices into the catalog,
/// the great-circle distance in thousandths of a nautical mile, and the
/// clamped flight time.  Ephemeral: it lives only in a query's response.
#[derive(Clone, Copy, Debug, PartialEq, Eq, Structural)]
pub struct Route {
    pub from: usize,
    pub to: usize,
    pub distance: u64,
    pub time: Time,
}

/// The route between two catalog indices at a speed.
pub open spec fn spec_route_of(airports: Seq<Airport>, from: int, to: int, speed: Speed)
    -> Route {
    let d = spec_distance_milli_nm(airports[from].position, airports[to].position);
    Route {
        from: from as usize,
        to: to as usize,
        distance: d as u64,
        time: spec_time_from(d, spec_as_knots_milli(speed)),
    }
}

impl Route {
    /// Evaluate the route between two catalog indices: its great-circle
    /// distance and its clamped flight time at the given speed.
    pub fn create(airports: &Vec<Airport>, from: usize, to: usize, speed: Speed) -> (r: Route)
        requires
            from < airports@.len(),
            to < airports@.len(),
            airports@[from as int].wf(),
            airports@[to as int].wf(),
        ensures
            r == spec_route_of(airports@, from as int, to as int, speed),
            r.from == from,
            r.to == to,
    {
        let d = distance_milli_nm(airports[from].position, airports[to].position);
        let time = Time::from_distance(d, speed);
        Route { from, to, distance: d, time }
    }

    /// Resolve both identifiers in the catalog and evaluate the route
    /// between them.  Fails with a distinct signal for each identifier
    /// that resolves to no airport, the departure checked first.
    pub fn from_icao(dep_icao: &str, arr_icao: &str, speed: Speed, airports: &Vec<Airport>)
        -> (r: Result<Route, SearchError>)
        requires
            catalog_wf(airports@),
        ensures
            match r {
                Ok(route) => {
                    &&& spec_has_icao(airports@, dep_icao@)
                    &&& spec_has_icao(airports@, arr_icao@)
                    &&& route.from < airports@.len()
                    &&& route.to < airports@.len()
                    &&& airports@[route.from as int].icao.0@ == dep_icao@
                    &&& airports@[route.to as int].icao.0@ == arr_icao@
                    &&& route == spec_route_of(airports@, route.from as int,
                        route.to as int, speed)
                },
                Err(SearchError::DepartureNotFound) => !spec_has_icao(airports@, dep_icao@),
                Err(SearchError::ArrivalNotFound) => spec_has_icao(airports@, dep_icao@)
                    && !spec_has_icao(airports@, arr_icao@),
            },
    {
        let from = match find_by_icao(dep_icao, airports) {
            Some(i) => i,
            None => {
                return Err(SearchError::DepartureNotFound);
            },
        };
        let to = match find_by_icao(arr_icao, airports) {
            Some(i) => i,
            None => {
                return Err(SearchError::ArrivalNotFound);
            },
        };
        proof {
            assert(spec_has_icao(airports@, dep_icao@));
            assert(spec_has_icao(airports@, arr_icao@));
        }
        Ok(Route::create(airports, from, to, speed))
    }

    /// Whether the route satisfies an optional time-or-distance range
    /// constraint.
    pub fn matches_filters(&self, time_or_dist: &Option<TimeOrDistance>) -> (r: bool)
        ensures
            r == spec_route_within(*time_or_dist, self.distance, self.time),
    {
        match time_or_dist {
            None => true,
            Some(TimeOrDistance::Time(range)) => range.within(&self.time),
            Some(TimeOrDistance::Distance(range)) => range.within(&self.distance),
        }
    }
}

/// A route query: the required speed, the optional departure and arrival
/// airport filters, and the optional time-or-distance constraint.
#[derive(Clone, Debug)]
pub struct Filters {
    pub speed: Speed,
    pub departure: Option<crate::filter::AirportFilters>,
    pub arrival: Option<crate::filter::AirportFilters>,
    pub time_or_dist: Option<TimeOrDistance>,
}

} // verus!
