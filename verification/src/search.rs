//! The search orchestrator: it resolves departure and arrival candidate
//! sets (by filter, or as a bounded random sample), pairs every
//! departure with every arrival, skips self-pairs, evaluates each route
//! and keeps those within the optional time-or-distance constraint, and
//! returns at most MAX_AIRPORTS_TO_RETURN routes, trimming an oversized
//! result to a random subset.

use vstd::prelude::*;

verus! {

use vstd::seq_lib::group_to_multiset_ensures;
use crate::airport::{Airport, catalog_wf, spec_has_icao, lemma_distinct_icao,
    lemma_icao_index_unique};
use crate::filter::{AirportFilters, spec_airport_matches, spec_candidates,
    lemma_candidates_props, MAX_AIRPORTS_TO_GET};
use crate::route::{Route, Filters, Speed, TimeOrDistance, SearchError, spec_route_of,
    spec_route_within};
use crate::rng::{sample_indices, shuffle_prefix};
use crate::text::{spec_str_cmp, str_cmp, lemma_str_le_total, lemma_str_le_trans};

/// The most routes a search returns.
pub const MAX_AIRPORTS_TO_RETURN: usize = 100;

/// Whether the pair (from, to) yields a kept route: not a self-pair, and
/// its route lies within the optional constraint.
pub open spec fn spec_pair_kept(airports: Seq<Airport>, from: usize, to: usize, speed: Speed,
    tod: Option<TimeOrDistance>) -> bool {
    let r = spec_route_of(airports, from as int, to as int, speed);
    from != to && spec_route_within(tod, r.distance, r.time)
}

/// The routes kept from pairing one departure with each arrival
/// candidate, in order.
pub open spec fn spec_kept_row(airports: Seq<Airport>, from: usize, arr: Seq<usize>,
    speed: Speed, tod: Option<TimeOrDistance>) -> Seq<Route>
    decreases arr.len(),
{
    if arr.len() == 0 {
        Seq::<Route>::empty()
    } else {
        let rest = spec_kept_row(airports, from, arr.drop_last(), speed, tod);
        if spec_pair_kept(airports, from, arr.last(), speed, tod) {
            rest.push(spec_route_of(airports, from as int, arr.last() as int, speed))
        } else {
            rest
        }
    }
}

/// The routes kept from the whole cartesian product of the candidate
/// sets, departures outermost.
pub open spec fn spec_kept_all(airports: Seq<Airport>, dep: Seq<usize>, arr: Seq<usize>,
    speed: Speed, tod: Option<TimeOrDistance>) -> Seq<Route>
    decreases dep.len(),
{
    if dep.len() == 0 {
        Seq::<Route>::empty()
    } else {
        spec_kept_all(airports, dep.drop_last(), arr, speed, tod) + spec_kept_row(airports,
            dep.last(), arr, speed, tod)
    }
}

/// The index of the airport carrying an identifier the catalog has.
pub open spec fn spec_icao_index(airports: Seq<Airport>, code: Seq<char>) -> usize {
    choose|i: usize|
        i < airports.len() && (#[trigger] airports[i as int].icao.0@) == code
}

/// The candidate set one side's filter resolves to: the airport of the
/// requested identifier when one is present, the capped match scan
/// otherwise.
pub open spec fn spec_filter_candidates(f: AirportFilters, airports: Seq<Airport>)
    -> Seq<usize> {
    match f.icao {
        Some(code) => if spec_has_icao(airports, code@) {
            seq![spec_icao_index(airports, code@)]
        } else {
            Seq::<usize>::empty()
        },
        None => spec_candidates(f, airports),
    }
}

/// Whether an index is acceptable to one side of the query: any index
/// when that side has no filter, the requested airport when the filter
/// names an identifier, a matching airport otherwise.
pub open spec fn spec_source_ok(fopt: Option<AirportFilters>, airports: Seq<Airport>,
    i: usize) -> bool {
    match fopt {
        None => true,
        Some(f) => match f.icao {
            Some(code) => airports[i as int].icao.0@ == code@,
            None => spec_airport_matches(f, airports[i as int]),
        },
    }
}

/// Every route of a kept row starts at the row's departure, ends at an
/// arrival candidate, is the evaluated route of its pair, and its pair
/// was kept.
proof fn lemma_kept_row_props(airports: Seq<Airport>, from: usize, arr: Seq<usize>,
    speed: Speed, tod: Option<TimeOrDistance>)
    ensures
        forall|k: int|
            0 <= k < spec_kept_row(airports, from, arr, speed, tod).len() ==> {
                let rt = #[trigger] spec_kept_row(airports, from, arr, speed, tod)[k];
                &&& rt.from == from
                &&& arr.contains(rt.to)
                &&& rt == spec_route_of(airports, from as int, rt.to as int, speed)
                &&& spec_pair_kept(airports, from, rt.to, speed, tod)
            },
    decreases arr.len(),
{
    if arr.len() > 0 {
        lemma_kept_row_props(airports, from, arr.drop_last(), speed, tod);
        let prev = spec_kept_row(airports, from, arr.drop_last(), speed, tod);
        let row = spec_kept_row(airports, from, arr, speed, tod);
        assert forall|k: int| 0 <= k < row.len() implies {
            let rt = #[trigger] row[k];
            &&& rt.from == from
            &&& arr.contains(rt.to)
            &&& rt == spec_route_of(airports, from as int, rt.to as int, speed)
            &&& spec_pair_kept(airports, from, rt.to, speed, tod)
        } by {
            if k < prev.len() {
                assert(row[k] == prev[k]);
                let rt = prev[k];
                assert(arr.drop_last().contains(rt.to));
                let t = choose|t: int| 0 <= t < arr.drop_last().len()
                    && arr.drop_last()[t] == rt.to;
                assert(arr[t] == rt.to);
            } else {
                assert(spec_pair_kept(airports, from, arr.last(), speed, tod));
                assert(row[k] == spec_route_of(airports, from as int, arr.last() as int,
                    speed));
                assert(arr[arr.len() - 1] == arr.last());
            }
        }
    }
}

/// Every kept route starts at a departure candidate, ends at an arrival
/// candidate, is the evaluated route of its pair, and its pair was kept.
proof fn lemma_kept_all_props(airports: Seq<Airport>, dep: Seq<usize>, arr: Seq<usize>,
    speed: Speed, tod: Option<TimeOrDistance>)
    ensures
        forall|k: int|
            0 <= k < spec_kept_all(airports, dep, arr, speed, tod).len() ==> {
                let rt = #[trigger] spec_kept_all(airports, dep, arr, speed, tod)[k];
                &&& dep.contains(rt.from)
                &&& arr.contains(rt.to)
                &&& rt == spec_route_of(airports, rt.from as int, rt.to as int, speed)
                &&& spec_pair_kept(airports, rt.from, rt.to, speed, tod)
            },
    decreases dep.len(),
{
    if dep.len() > 0 {
        lemma_kept_all_props(airports, dep.drop_last(), arr, speed, tod);
        lemma_kept_row_props(airports, dep.last(), arr, speed, tod);
        let prev = spec_kept_all(airports, dep.drop_last(), arr, speed, tod);
        let row = spec_kept_row(airports, dep.last(), arr, speed, tod);
        let all = spec_kept_all(airports, dep, arr, speed, tod);
        assert forall|k: int| 0 <= k < all.len() implies {
            let rt = #[trigger] all[k];
            &&& dep.contains(rt.from)
            &&& arr.contains(rt.to)
            &&& rt == spec_route_of(airports, rt.from as int, rt.to as int, speed)
            &&& spec_pair_kept(airports, rt.from, rt.to, speed, tod)
        } by {
            if k < prev.len() {
                assert(all[k] == prev[k]);
                let rt = prev[k];
                assert(dep.drop_last().contains(rt.from));
                let t = choose|t: int| 0 <= t < dep.drop_last().len()
                    && dep.drop_last()[t] == rt.from;
                assert(dep[t] == rt.from);
            } else {
                assert(all[k] == row[k - prev.len()]);
                let rt = row[k - prev.len()];
                assert(rt.from == dep.last());
                assert(dep[dep.len() - 1] == dep.last());
            }
        }
    }
}

/// What any sample standing in for a filterless side looks like:
/// min(catalog size, MAX_AIRPORTS_TO_GET) pairwise-distinct catalog
/// indices.  Which indices were drawn is up to the random source; this
/// is everything that holds of every draw.
pub open spec fn spec_is_sample(airports: Seq<Airport>, c: Seq<usize>) -> bool {
    &&& c.len() == if airports.len() < MAX_AIRPORTS_TO_GET {
        airports.len()
    } else {
        MAX_AIRPORTS_TO_GET as nat
    }
    &&& forall|k: int| 0 <= k < c.len() ==> (#[trigger] c[k]) < airports.len()
    &&& forall|i: int, j: int| 0 <= i < j < c.len() ==> c[i] != c[j]
}

/// The candidate set one side of the query was answered from: the
/// filter's own candidates when a filter is present, a bounded random
/// sample of the catalog when none is.
pub open spec fn spec_side_candidates(fopt: Option<AirportFilters>, airports: Seq<Airport>,
    c: Seq<usize>) -> bool {
    match fopt {
        Some(f) => c == spec_filter_candidates(f, airports),
        None => spec_is_sample(airports, c),
    }
}

/// Whether every identifier a side's filter names resolves in the
/// catalog.  A successful search guarantees this of both sides.
pub open spec fn spec_icao_resolved(fopt: Option<AirportFilters>, airports: Seq<Airport>)
    -> bool {
    match fopt {
        Some(f) => match f.icao {
            Some(code) => spec_has_icao(airports, code@),
            None => true,
        },
        None => true,
    }
}

/// The returned routes are a selection of the routes kept from pairing
/// the two candidate sets: exactly min(kept, MAX_AIRPORTS_TO_RETURN)
/// routes, forming a prefix of some permutation of the kept sequence.
pub open spec fn spec_search_selection(filters: Filters, airports: Seq<Airport>,
    routes: Seq<Route>, dep: Seq<usize>, arr: Seq<usize>) -> bool {
    let kept = spec_kept_all(airports, dep, arr, filters.speed, filters.time_or_dist);
    &&& spec_side_candidates(filters.departure, airports, dep)
    &&& spec_side_candidates(filters.arrival, airports, arr)
    &&& routes.len() == if kept.len() < MAX_AIRPORTS_TO_RETURN {
        kept.len() as int
    } else {
        MAX_AIRPORTS_TO_RETURN as int
    }
    &&& exists|s: Seq<Route>|
        {
            &&& #[trigger] s.to_multiset() == kept.to_multiset()
            &&& routes == s.take(routes.len() as int)
        }
}

/// A bounded uniform random sample of catalog indices, drawn without
/// replacement, used as the candidate set when a side has no filter.
fn random_airport_set(airports: &Vec<Airport>) -> (r: Vec<usize>)
    ensures
        spec_is_sample(airports@, r@),
{
    let amount = if airports.len() < MAX_AIRPORTS_TO_GET {
        airports.len()
    } else {
        MAX_AIRPORTS_TO_GET
    };
    sample_indices(airports.len(), amount)
}

/// Answer a route query over the catalog.
///
/// Departure and arrival candidates come from the side's filter, or
/// from a bounded random sample of the catalog when the side has none.
/// Every departure is paired with every arrival; self-pairs are
/// skipped; each remaining pair's route is evaluated and kept when it
/// lies within the optional time-or-distance constraint.  The result is
/// a selection of exactly min(kept, MAX_AIRPORTS_TO_RETURN) of the kept
/// routes, a prefix of a permutation of them, so two runs of one
/// query may differ in which routes they keep and in their order, never
/// in how many they return for given candidate sets nor in whether a
/// returned route is sound.  Which candidate sets a success was
/// answered from is pinned for a filtered side and characterised for a
/// sampled one: min(catalog, MAX_AIRPORTS_TO_GET) distinct indices.
///
/// A filter that names an identifier the catalog does not have fails
/// with the side's distinct not-found error, the departure checked
/// first; on success every identifier named by a filter resolved.
/// Every other query succeeds, possibly with an empty result.
#[verifier::rlimit(100)]
pub fn search_routes(filters: &Filters, airports: &Vec<Airport>)
    -> (r: Result<Vec<Route>, SearchError>)
    requires
        catalog_wf(airports@),
    ensures
        match r {
            Ok(routes) => {
                &&& routes@.len() <= MAX_AIRPORTS_TO_RETURN
                &&& airports@.len() == 0 ==> routes@.len() == 0
                &&& forall|k: int|
                    0 <= k < routes@.len() ==> {
                        let rt = #[trigger] routes@[k];
                        &&& rt.from < airports@.len()
                        &&& rt.to < airports@.len()
                        &&& rt.from != rt.to
                        &&& airports@[rt.from as int].icao.0@
                            != airports@[rt.to as int].icao.0@
                        &&& rt == spec_route_of(airports@, rt.from as int, rt.to as int,
                            filters.speed)
                        &&& spec_route_within(filters.time_or_dist, rt.distance, rt.time)
                        &&& spec_source_ok(filters.departure, airports@, rt.from)
                        &&& spec_source_ok(filters.arrival, airports@, rt.to)
                    }
                &&& spec_icao_resolved(filters.departure, airports@)
                &&& spec_icao_resolved(filters.arrival, airports@)
                &&& exists|dep: Seq<usize>, arr: Seq<usize>|
                    #[trigger] spec_search_selection(*filters, airports@, routes@, dep, arr)
            },
            Err(SearchError::DepartureNotFound) => {
                match filters.departure {
                    Some(f) => match f.icao {
                        Some(code) => !spec_has_icao(airports@, code@),
                        None => false,
                    },
                    None => false,
                }
            },
            Err(SearchError::ArrivalNotFound) => {
                &&& match filters.arrival {
                    Some(f) => match f.icao {
                        Some(code) => !spec_has_icao(airports@, code@),
                        None => false,
                    },
                    None => false,
                }
                &&& match filters.departure {
                    Some(f) => match f.icao {
                        Some(code) => spec_has_icao(airports@, code@),
                        None => true,
                    },
                    None => true,
                }
            },
        },
{
    broadcast use group_to_multiset_ensures;

    let n = airports.len();
    proof {
        assert(airports@.len() == n);
    }
    let dep_idx: Vec<usize>;
    match &filters.departure {
        Some(f) => {
            dep_idx = f.matching_airports(airports);
            if f.icao.is_some() && dep_idx.len() == 0 {
                return Err(SearchError::DepartureNotFound);
            }
            proof {
                if f.icao is None {
                    lemma_candidates_props(*f, airports@);
                } else {
                    let code = f.icao->0;
                    assert(spec_has_icao(airports@, code@));
                    lemma_icao_index_unique(airports@, code@, dep_idx@[0] as int,
                        spec_icao_index(airports@, code@) as int);
                    assert(dep_idx@ =~= spec_filter_candidates(*f, airports@));
                }
            }
        },
        None => {
            dep_idx = random_airport_set(airports);
        },
    }
    let arr_idx: Vec<usize>;
    match &filters.arrival {
        Some(f) => {
            arr_idx = f.matching_airports(airports);
            if f.icao.is_some() && arr_idx.len() == 0 {
                return Err(SearchError::ArrivalNotFound);
            }
            proof {
                if f.icao is None {
                    lemma_candidates_props(*f, airports@);
                } else {
                    let code = f.icao->0;
                    assert(spec_has_icao(airports@, code@));
                    lemma_icao_index_unique(airports@, code@, arr_idx@[0] as int,
                        spec_icao_index(airports@, code@) as int);
                    assert(arr_idx@ =~= spec_filter_candidates(*f, airports@));
                }
            }
        },
        None => {
            arr_idx = random_airport_set(airports);
        },
    }
    proof {
        assert(forall|k: int| 0 <= k < dep_idx@.len() ==> (#[trigger] dep_idx@[k])
            < airports@.len());
        assert(forall|k: int| 0 <= k < arr_idx@.len() ==> (#[trigger] arr_idx@[k])
            < airports@.len());
    }

    let mut routes: Vec<Route> = Vec::new();
    let mut di: usize = 0;
    proof {
        assert(dep_idx@.take(0) =~= Seq::<usize>::empty());
    }
    while di < dep_idx.len()
        invariant
            di <= dep_idx@.len(),
            catalog_wf(airports@),
            forall|k: int| 0 <= k < dep_idx@.len() ==> (#[trigger] dep_idx@[k])
                < airports@.len(),
            forall|k: int| 0 <= k < arr_idx@.len() ==> (#[trigger] arr_idx@[k])
                < airports@.len(),
            routes@ == spec_kept_all(airports@, dep_idx@.take(di as int), arr_idx@,
                filters.speed, filters.time_or_dist),
        decreases dep_idx@.len() - di,
    {
        let from = dep_idx[di];
        let mut ai: usize = 0;
        proof {
            assert(arr_idx@.take(0) =~= Seq::<usize>::empty());
        }
        while ai < arr_idx.len()
            invariant
                ai <= arr_idx@.len(),
                di < dep_idx@.len(),
                from == dep_idx@[di as int],
                catalog_wf(airports@),
                from < airports@.len(),
                forall|k: int| 0 <= k < arr_idx@.len() ==> (#[trigger] arr_idx@[k])
                    < airports@.len(),
                routes@ == spec_kept_all(airports@, dep_idx@.take(di as int), arr_idx@,
                    filters.speed, filters.time_or_dist) + spec_kept_row(airports@, from,
                    arr_idx@.take(ai as int), filters.speed, filters.time_or_dist),
            decreases arr_idx@.len() - ai,
        {
            let to = arr_idx[ai];
            proof {
                assert(arr_idx@.take(ai as int + 1).drop_last() =~= arr_idx@.take(ai as int));
                assert(arr_idx@.take(ai as int + 1).last() == arr_idx@[ai as int]);
            }
            if from != to {
                let route = Route::create(airports, from, to, filters.speed);
                if route.matches_filters(&filters.time_or_dist) {
                    proof {
                        let a = spec_kept_all(airports@, dep_idx@.take(di as int), arr_idx@,
                            filters.speed, filters.time_or_dist);
                        let b = spec_kept_row(airports@, from, arr_idx@.take(ai as int),
                            filters.speed, filters.time_or_dist);
                        assert((a + b).push(route) =~= a + b.push(route));
                    }
                    routes.push(route);
                }
            }
            ai = ai + 1;
        }
        proof {
            assert(arr_idx@.take(arr_idx@.len() as int) =~= arr_idx@);
            assert(dep_idx@.take(di as int + 1).drop_last() =~= dep_idx@.take(di as int));
            assert(dep_idx@.take(di as int + 1).last() == dep_idx@[di as int]);
        }
        di = di + 1;
    }
    proof {
        assert(dep_idx@.take(dep_idx@.len() as int) =~= dep_idx@);
    }
    let ghost kept = routes@;
    proof {
        lemma_kept_all_props(airports@, dep_idx@, arr_idx@, filters.speed,
            filters.time_or_dist);
    }

    proof {
        if airports@.len() == 0 {
            assert(dep_idx@.len() == 0);
            assert(kept =~= Seq::<Route>::empty());
        }
    }

    if routes.len() > 1 {
        shuffle_prefix(&mut routes, MAX_AIRPORTS_TO_RETURN);
    }
    let ghost reordered = routes@;
    routes.truncate(MAX_AIRPORTS_TO_RETURN);

    proof {
        assert(reordered.to_multiset() == kept.to_multiset());
        assert(reordered.len() == kept.len());
        if reordered.len() <= MAX_AIRPORTS_TO_RETURN {
            assert(reordered.take(routes@.len() as int) =~= reordered);
        }
        assert(routes@ == reordered.take(routes@.len() as int));
        assert(spec_side_candidates(filters.departure, airports@, dep_idx@)) by {
            if let Some(f) = filters.departure {
                if f.icao is Some {
                    assert(dep_idx@.len() > 0);
                    assert(spec_has_icao(airports@, (f.icao->0)@));
                }
            }
        }
        assert(spec_side_candidates(filters.arrival, airports@, arr_idx@)) by {
            if let Some(f) = filters.arrival {
                if f.icao is Some {
                    assert(arr_idx@.len() > 0);
                    assert(spec_has_icao(airports@, (f.icao->0)@));
                }
            }
        }
        assert(spec_search_selection(*filters, airports@, routes@, dep_idx@, arr_idx@));
        assert forall|k: int| 0 <= k < routes@.len() implies {
            let rt = #[trigger] routes@[k];
            &&& rt.from < airports@.len()
            &&& rt.to < airports@.len()
            &&& rt.from != rt.to
            &&& airports@[rt.from as int].icao.0@ != airports@[rt.to as int].icao.0@
            &&& rt == spec_route_of(airports@, rt.from as int, rt.to as int, filters.speed)
            &&& spec_route_within(filters.time_or_dist, rt.distance, rt.time)
            &&& spec_source_ok(filters.departure, airports@, rt.from)
            &&& spec_source_ok(filters.arrival, airports@, rt.to)
        } by {
            let rt = routes@[k];
            assert(routes@.contains(rt));
            assert(routes@.to_multiset().count(rt) > 0);
            assert(kept.to_multiset().count(rt) > 0);
            assert(kept.contains(rt));
            let j = choose|j: int| 0 <= j < kept.len() && kept[j] == rt;
            assert(dep_idx@.contains(rt.from));
            assert(arr_idx@.contains(rt.to));
            let dj = choose|t: int| 0 <= t < dep_idx@.len() && dep_idx@[t] == rt.from;
            let aj = choose|t: int| 0 <= t < arr_idx@.len() && arr_idx@[t] == rt.to;
            lemma_distinct_icao(airports@, rt.from as int, rt.to as int);
        }
    }
    Ok(routes)
}

/// Pick one airport uniformly at random among those the filter resolves
/// to; `None` exactly when the filter resolves to no airport.
pub fn find(f: &AirportFilters, airports: &Vec<Airport>) -> (r: Option<usize>)
    requires
        catalog_wf(airports@),
    ensures
        match r {
            Some(i) => {
                &&& i < airports@.len()
                &&& spec_source_ok(Some(*f), airports@, i)
                &&& spec_filter_candidates(*f, airports@).len() > 0
            },
            None => spec_filter_candidates(*f, airports@).len() == 0,
        },
{
    let n = airports.len();
    let found = f.matching_airports(airports);
    proof {
        match &f.icao {
            Some(code) => {
                if spec_has_icao(airports@, code@) {
                    lemma_icao_index_unique(airports@, code@, found@[0] as int,
                        spec_icao_index(airports@, code@) as int);
                    assert(found@ =~= spec_filter_candidates(*f, airports@));
                } else {
                    assert(found@ =~= spec_filter_candidates(*f, airports@));
                }
            },
            None => {
                lemma_candidates_props(*f, airports@);
            },
        }
    }
    if found.len() > 0 {
        let pick = crate::rng::random_index(found.len());
        Some(found[pick])
    } else {
        None
    }
}

/// The order in which `find_all` returns its routes.
#[derive(Clone, Copy, Debug, PartialEq, Eq, Structural)]
pub enum SortBy {
    Distance,
    ArrICAO,
}

/// The sort order on routes: by distance, or by the arrival airport's
/// identifier.
pub open spec fn spec_route_le(airports: Seq<Airport>, sorter: SortBy, a: Route, b: Route)
    -> bool {
    match sorter {
        SortBy::Distance => a.distance <= b.distance,
        SortBy::ArrICAO => spec_str_cmp(airports[a.to as int].icao.0@,
            airports[b.to as int].icao.0@) <= 0,
    }
}

/// Whether a route list is sorted under the given order.
pub open spec fn spec_sorted_by(airports: Seq<Airport>, sorter: SortBy, routes: Seq<Route>)
    -> bool {
    forall|i: int, j: int|
        0 <= i < j < routes.len() ==> spec_route_le(airports, sorter, #[trigger] routes[i],
            #[trigger] routes[j])
}

fn route_le(airports: &Vec<Airport>, sorter: SortBy, a: &Route, b: &Route) -> (r: bool)
    requires
        a.to < airports@.len(),
        b.to < airports@.len(),
    ensures
        r == spec_route_le(airports@, sorter, *a, *b),
{
    match sorter {
        SortBy::Distance => a.distance <= b.distance,
        SortBy::ArrICAO => {
            let c = str_cmp(airports[a.to].icao.0.as_str(), airports[b.to].icao.0.as_str());
            c <= 0
        },
    }
}

proof fn lemma_route_le_total(airports: Seq<Airport>, sorter: SortBy, a: Route, b: Route)
    ensures
        spec_route_le(airports, sorter, a, b) || spec_route_le(airports, sorter, b, a),
{
    if sorter is ArrICAO {
        lemma_str_le_total(airports[a.to as int].icao.0@, airports[b.to as int].icao.0@);
    }
}

proof fn lemma_route_le_trans(airports: Seq<Airport>, sorter: SortBy, a: Route, b: Route,
    c: Route)
    requires
        spec_route_le(airports, sorter, a, b),
        spec_route_le(airports, sorter, b, c),
    ensures
        spec_route_le(airports, sorter, a, c),
{
    if sorter is ArrICAO {
        lemma_str_le_trans(airports[a.to as int].icao.0@, airports[b.to as int].icao.0@,
            airports[c.to as int].icao.0@);
    }
}

/// Sort routes in place by insertion, under the given order.
fn sort_routes(airports: &Vec<Airport>, sorter: SortBy, routes: &mut Vec<Route>)
    requires
        forall|k: int|
            0 <= k < old(routes)@.len() ==> (#[trigger] old(routes)@[k]).to < airports@.len(),
    ensures
        final(routes)@.len() == old(routes)@.len(),
        final(routes)@.to_multiset() == old(routes)@.to_multiset(),
        spec_sorted_by(airports@, sorter, final(routes)@),
        forall|k: int|
            0 <= k < final(routes)@.len() ==> (#[trigger] final(routes)@[k]).to
                < airports@.len(),
{
    broadcast use group_to_multiset_ensures;

    let ghost unsorted = routes@;
    let n = routes.len();
    let mut i: usize = 1;
    while i < n
        invariant
            1 <= i <= n || (n == 0 && i == 1),
            n == routes@.len(),
            routes@.to_multiset() == unsorted.to_multiset(),
            forall|k: int|
                0 <= k < routes@.len() ==> (#[trigger] routes@[k]).to < airports@.len(),
            forall|a: int, b: int|
                0 <= a < b < i && b < n ==> spec_route_le(airports@, sorter,
                    #[trigger] routes@[a], #[trigger] routes@[b]),
        decreases n - i,
    {
        let x = routes[i];
        let mut j: usize = i;
        while j > 0 && !route_le(airports, sorter, &routes[j - 1], &x)
            invariant
                j <= i < n,
                n == routes@.len(),
                x == routes@[i as int],
                forall|k: int|
                    0 <= k < routes@.len() ==> (#[trigger] routes@[k]).to < airports@.len(),
                forall|a: int, b: int|
                    0 <= a < b < i ==> spec_route_le(airports@, sorter,
                        #[trigger] routes@[a], #[trigger] routes@[b]),
                forall|p: int|
                    j <= p < i ==> spec_route_le(airports@, sorter, x,
                        #[trigger] routes@[p]),
            decreases j,
        {
            proof {
                lemma_route_le_total(airports@, sorter, routes@[j as int - 1], x);
            }
            j = j - 1;
        }
        let ghost before = routes@;
        routes.remove(i);
        routes.insert(j, x);
        proof {
            broadcast use vstd::multiset::group_multiset_axioms;

            let removed = before.remove(i as int);
            let after = routes@;
            assert(after == removed.insert(j as int, x));
            before.remove_ensures(i as int);
            removed.insert_ensures(j as int, x);
            vstd::seq_lib::to_multiset_remove::<Route>(before, i as int);
            vstd::seq_lib::to_multiset_insert::<Route>(removed, j as int, x);
            assert(removed.to_multiset() == before.to_multiset().remove(x));
            assert(after.to_multiset() == removed.to_multiset().insert(x));
            assert(before.contains(x));
            vstd::seq_lib::to_multiset_contains::<Route>(before, x);
            assert(before.to_multiset().count(x) > 0);
            assert(after.to_multiset() =~= before.to_multiset());
            assert(forall|t: int| 0 <= t < j ==> #[trigger] after[t] == before[t]);
            assert(after[j as int] == x);
            assert(forall|t: int| j < t <= i ==> #[trigger] after[t] == before[t - 1]);
            assert(forall|t: int| i < t < n ==> #[trigger] after[t] == before[t]);
            assert forall|a: int, b: int|
                0 <= a < b <= i implies spec_route_le(airports@, sorter,
                #[trigger] after[a], #[trigger] after[b]) by {
                if b < j {
                } else if b == j {
                    assert(a < j);
                    assert(spec_route_le(airports@, sorter, before[j - 1], x));
                    if a < j - 1 {
                        lemma_route_le_trans(airports@, sorter, before[a], before[j - 1],
                            x);
                    }
                } else if a < j {
                    assert(after[b] == before[b - 1]);
                    assert(j <= b - 1 < i);
                    assert(spec_route_le(airports@, sorter, x, before[b - 1]));
                    assert(spec_route_le(airports@, sorter, before[j - 1], x));
                    if a < j - 1 {
                        lemma_route_le_trans(airports@, sorter, before[a], before[j - 1],
                            x);
                    }
                    lemma_route_le_trans(airports@, sorter, after[a], x, after[b]);
                } else if a == j {
                    assert(after[b] == before[b - 1]);
                    assert(spec_route_le(airports@, sorter, x, before[b - 1]));
                } else {
                    assert(after[a] == before[a - 1]);
                    assert(after[b] == before[b - 1]);
                }
            }
        }
        i = i + 1;
    }
}

/// All routes kept for a fixed departure: every other airport of the
/// catalog that the optional arrival filter matches, whose route lies
/// within the optional constraint, in catalog order.
pub open spec fn spec_arrival_kept(airports: Seq<Airport>, from: usize,
    fopt: Option<AirportFilters>, speed: Speed, tod: Option<TimeOrDistance>, n: int)
    -> Seq<Route>
    decreases n,
{
    if n <= 0 {
        Seq::<Route>::empty()
    } else {
        let p = spec_arrival_kept(airports, from, fopt, speed, tod, n - 1);
        let j = (n - 1) as usize;
        let arr_ok = match fopt {
            Some(f) => spec_airport_matches(f, airports[n - 1]),
            None => true,
        };
        if arr_ok && spec_pair_kept(airports, from, j, speed, tod) {
            p.push(spec_route_of(airports, from as int, j as int, speed))
        } else {
            p
        }
    }
}

proof fn lemma_arrival_kept_props(airports: Seq<Airport>, from: usize,
    fopt: Option<AirportFilters>, speed: Speed, tod: Option<TimeOrDistance>, n: int)
    requires
        n <= airports.len(),
        n <= usize::MAX,
    ensures
        forall|k: int|
            0 <= k < spec_arrival_kept(airports, from, fopt, speed, tod, n).len() ==> {
                let rt = #[trigger] spec_arrival_kept(airports, from, fopt, speed, tod,
                    n)[k];
                &&& rt.from == from
                &&& rt.to < n
                &&& rt == spec_route_of(airports, from as int, rt.to as int, speed)
                &&& spec_pair_kept(airports, from, rt.to, speed, tod)
                &&& match fopt {
                    Some(f) => spec_airport_matches(f, airports[rt.to as int]),
                    None => true,
                }
            },
    decreases n,
{
    if n > 0 {
        lemma_arrival_kept_props(airports, from, fopt, speed, tod, n - 1);
        let p = spec_arrival_kept(airports, from, fopt, speed, tod, n - 1);
        let s = spec_arrival_kept(airports, from, fopt, speed, tod, n);
        assert forall|k: int| 0 <= k < s.len() implies {
            let rt = #[trigger] s[k];
            &&& rt.from == from
            &&& rt.to < n
            &&& rt == spec_route_of(airports, from as int, rt.to as int, speed)
            &&& spec_pair_kept(airports, from, rt.to, speed, tod)
            &&& match fopt {
                Some(f) => spec_airport_matches(f, airports[rt.to as int]),
                None => true,
            }
        } by {
            if k < p.len() {
                assert(s[k] == p[k]);
            } else {
                assert(s[k] == spec_route_of(airports, from as int, n - 1, speed));
            }
        }
    }
}

/// All routes out of one departure airport, sorted and bounded.
///
/// Every other airport of the catalog that the optional arrival filter
/// matches is paired with the departure; routes within the optional
/// time-or-distance constraint are kept, sorted under the given order,
/// and the first MAX_AIRPORTS_TO_RETURN of them are returned.
pub fn find_all(departure: usize, arrival_filter: &Option<AirportFilters>, speed: Speed,
    time_or_dist: &Option<TimeOrDistance>, sorter: SortBy, airports: &Vec<Airport>)
    -> (r: Vec<Route>)
    requires
        catalog_wf(airports@),
        departure < airports@.len(),
    ensures
        r@.len() <= MAX_AIRPORTS_TO_RETURN,
        spec_sorted_by(airports@, sorter, r@),
        ({
            let kept = spec_arrival_kept(airports@, departure, *arrival_filter, speed,
                *time_or_dist, airports@.len() as int);
            &&& r@.len() == if kept.len() < MAX_AIRPORTS_TO_RETURN {
                kept.len() as int
            } else {
                MAX_AIRPORTS_TO_RETURN as int
            }
            &&& exists|s: Seq<Route>|
                {
                    &&& #[trigger] s.to_multiset() == kept.to_multiset()
                    &&& spec_sorted_by(airports@, sorter, s)
                    &&& r@ == s.take(r@.len() as int)
                }
        }),
        forall|k: int|
            0 <= k < r@.len() ==> {
                let rt = #[trigger] r@[k];
                &&& rt.from == departure
                &&& rt.to < airports@.len()
                &&& rt.to != departure
                &&& rt == spec_route_of(airports@, departure as int, rt.to as int, speed)
                &&& spec_route_within(*time_or_dist, rt.distance, rt.time)
                &&& match *arrival_filter {
                    Some(f) => spec_airport_matches(f, airports@[rt.to as int]),
                    None => true,
                }
            },
{
    broadcast use group_to_multiset_ensures;

    let n = airports.len();
    let mut routes: Vec<Route> = Vec::new();
    let mut j: usize = 0;
    while j < n
        invariant
            j <= n,
            n == airports@.len(),
            catalog_wf(airports@),
            departure < airports@.len(),
            routes@ == spec_arrival_kept(airports@, departure, *arrival_filter, speed,
                *time_or_dist, j as int),
        decreases n - j,
    {
        let arr_ok = match arrival_filter {
            Some(f) => f.airport_matches(&airports[j]),
            None => true,
        };
        if arr_ok && j != departure {
            let route = Route::create(airports, departure, j, speed);
            if route.matches_filters(time_or_dist) {
                routes.push(route);
            }
        }
        j = j + 1;
    }
    let ghost kept = routes@;
    proof {
        lemma_arrival_kept_props(airports@, departure, *arrival_filter, speed,
            *time_or_dist, n as int);
        assert(forall|k: int|
            0 <= k < routes@.len() ==> (#[trigger] routes@[k]).to < airports@.len());
    }
    sort_routes(airports, sorter, &mut routes);
    let ghost sorted = routes@;
    routes.truncate(MAX_AIRPORTS_TO_RETURN);
    proof {
        assert(sorted.to_multiset() == kept.to_multiset());
        assert(routes@ == sorted.take(routes@.len() as int));
        assert forall|k: int| 0 <= k < routes@.len() implies {
            let rt = #[trigger] routes@[k];
            &&& rt.from == departure
            &&& rt.to < airports@.len()
            &&& rt.to != departure
            &&& rt == spec_route_of(airports@, departure as int, rt.to as int, speed)
            &&& spec_route_within(*time_or_dist, rt.distance, rt.time)
            &&& match *arrival_filter {
                Some(f) => spec_airport_matches(f, airports@[rt.to as int]),
                None => true,
            }
        } by {
            let rt = routes@[k];
            assert(rt == sorted[k]);
            assert(sorted.contains(rt));
            assert(sorted.to_multiset().count(rt) > 0);
            assert(kept.to_multiset().count(rt) > 0);
            assert(kept.contains(rt));
            let j = choose|j: int| 0 <= j < kept.len() && kept[j] == rt;
        }
    }
    routes
}

} // verus!
