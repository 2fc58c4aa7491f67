//! Airport filtering: the runway-length predicate, the country
//! allow-list, and the airport filter specification with its
//! candidate-set construction over the catalog.

use vstd::prelude::*;

verus! {

use crate::airport::{Airport, AirportType, Runway, catalog_wf, spec_has_icao, find_by_icao};
use crate::text::{spec_eq_ignore_case, eq_ignore_ascii_case, spec_all_digits, spec_digits_val,
    parse_u32_from};

/// The most matching airports a single filter scan collects.
pub const MAX_AIRPORTS_TO_GET: usize = 2000;

/// A runway-length predicate: a comparison against a threshold in feet.
/// `GreaterThan` and `LessThan` are strict.
#[derive(Clone, Copy, Debug, PartialEq, Eq, Structural)]
pub enum RunwayLength {
    Equal(u32),
    GreaterThan(u32),
    LessThan(u32),
}

/// Whether a known runway length satisfies the predicate.
pub open spec fn spec_fits(rl: RunwayLength, length: u32) -> bool {
    match rl {
        RunwayLength::Equal(len) => length == len,
        RunwayLength::GreaterThan(len) => length > len,
        RunwayLength::LessThan(len) => length < len,
    }
}

/// Whether a runway has a known length satisfying the predicate: an
/// unknown length never matches.
pub open spec fn spec_runway_matches(rl: RunwayLength, runway: Runway) -> bool {
    match runway.length_ft {
        Some(len) => spec_fits(rl, len),
        None => false,
    }
}

/// Whether any runway of the list has a known length satisfying the
/// predicate.
pub open spec fn spec_fits_any(rl: RunwayLength, runways: Seq<Runway>) -> bool {
    exists|i: int| 0 <= i < runways.len() && spec_runway_matches(rl, #[trigger] runways[i])
}

/// The runway-length predicate a request string denotes: a selector
/// character `<`, `>` or `=` followed by a decimal threshold.
pub open spec fn spec_parse_runway_length(s: Seq<char>) -> Option<RunwayLength> {
    if s.len() < 2 || !spec_all_digits(s.skip(1)) || spec_digits_val(s.skip(1)) > u32::MAX {
        None
    } else if s[0] == '<' {
        Some(RunwayLength::LessThan(spec_digits_val(s.skip(1)) as u32))
    } else if s[0] == '>' {
        Some(RunwayLength::GreaterThan(spec_digits_val(s.skip(1)) as u32))
    } else if s[0] == '=' {
        Some(RunwayLength::Equal(spec_digits_val(s.skip(1)) as u32))
    } else {
        None
    }
}

impl RunwayLength {
    /// Whether a known runway length satisfies the predicate.
    pub fn fits(self, length: u32) -> (r: bool)
        ensures
            r == spec_fits(self, length),
    {
        match self {
            RunwayLength::Equal(len) => len == length,
            RunwayLength::GreaterThan(len) => length > len,
            RunwayLength::LessThan(len) => length < len,
        }
    }

    /// Whether a runway has a known length satisfying the predicate.
    pub fn is_match(self, runway: &Runway) -> (r: bool)
        ensures
            r == spec_runway_matches(self, *runway),
    {
        match runway.length_ft {
            Some(len) => self.fits(len),
            None => false,
        }
    }

    /// Whether any runway of the list satisfies the predicate.
    pub fn fits_any(self, runways: &Vec<Runway>) -> (r: bool)
        ensures
            r == spec_fits_any(self, runways@),
    {
        let mut i: usize = 0;
        while i < runways.len()
            invariant
                i <= runways@.len(),
                forall|j: int| 0 <= j < i ==> !spec_runway_matches(self, #[trigger] runways@[j]),
            decreases runways@.len() - i,
        {
            if self.is_match(&runways[i]) {
                return true;
            }
            i = i + 1;
        }
        false
    }

    /// Whether any runway of the list satisfies the predicate.
    pub fn any_match(self, runways: &Vec<Runway>) -> (r: bool)
        ensures
            r == spec_fits_any(self, runways@),
    {
        self.fits_any(runways)
    }

    /// Parse a request string as a runway-length predicate: a selector
    /// character `<`, `>` or `=` followed by a decimal threshold in feet.
    pub fn parse(input: &str) -> (r: Option<RunwayLength>)
        ensures
            r == spec_parse_runway_length(input@),
    {
        let len = input.unicode_len();
        if len < 2 {
            return None;
        }
        let value = match parse_u32_from(input, 1) {
            Some(v) => v,
            None => {
                return None;
            },
        };
        let c = input.get_char(0);
        if c == '<' {
            Some(RunwayLength::LessThan(value))
        } else if c == '>' {
            Some(RunwayLength::GreaterThan(value))
        } else if c == '=' {
            Some(RunwayLength::Equal(value))
        } else {
            None
        }
    }
}

/// Whether a country name is listed, up to ASCII case.
pub open spec fn spec_country_listed(list: Seq<String>, name: Seq<char>) -> bool {
    exists|i: int| 0 <= i < list.len() && spec_eq_ignore_case((#[trigger] list[i])@, name)
}

/// A country allow-list.  An empty list means "any country".
#[derive(Clone, Debug)]
pub struct Countries(pub Vec<String>);

impl Countries {
    /// Whether the list allows the country name: it is empty, or some
    /// entry equals the name up to ASCII case.
    pub fn any_match(&self, name: &str) -> (r: bool)
        ensures
            r == (self.0@.len() == 0 || spec_country_listed(self.0@, name@)),
    {
        self.0.len() == 0 || AirportFilters::list_has_any(name, &self.0)
    }
}

/// One side's airport filter.  A present identifier short-circuits the
/// other predicates; each absent predicate passes vacuously.
#[derive(Clone, Debug)]
pub struct AirportFilters {
    pub icao: Option<String>,
    pub airport_type: AirportType,
    pub runway_length: Option<RunwayLength>,
    pub countries: Countries,
}

/// Whether an airport satisfies every present predicate of the filter,
/// identifier aside: the type predicate (with `Unknown` meaning "no
/// constraint"), the runway-length predicate, and the country list.
pub open spec fn spec_airport_matches(f: AirportFilters, a: Airport) -> bool {
    &&& f.airport_type == AirportType::Unknown || a.class == f.airport_type
    &&& match f.runway_length {
        Some(rl) => spec_fits_any(rl, a.runways@),
        None => true,
    }
    &&& f.countries.0@.len() == 0 || spec_country_listed(f.countries.0@, a.country_name@)
}

/// The indices of the airports among the first n of the catalog that the
/// filter matches, in ascending order.
pub open spec fn spec_match_indices(f: AirportFilters, airports: Seq<Airport>, n: int)
    -> Seq<usize>
    decreases n,
{
    if n <= 0 {
        Seq::empty()
    } else {
        let p = spec_match_indices(f, airports, n - 1);
        if spec_airport_matches(f, airports[n - 1]) {
            p.push((n - 1) as usize)
        } else {
            p
        }
    }
}

/// The candidate set of a filter without identifier: the matching
/// indices, at most MAX_AIRPORTS_TO_GET of them.
pub open spec fn spec_candidates(f: AirportFilters, airports: Seq<Airport>) -> Seq<usize> {
    let full = spec_match_indices(f, airports, airports.len() as int);
    if full.len() <= MAX_AIRPORTS_TO_GET {
        full
    } else {
        full.take(MAX_AIRPORTS_TO_GET as int)
    }
}

/// Every collected index is in range, points at a matching airport, and
/// the indices are strictly ascending and below n.
pub proof fn lemma_match_indices_props(f: AirportFilters, airports: Seq<Airport>, n: int)
    requires
        n <= airports.len(),
        n <= usize::MAX,
    ensures
        forall|k: int|
            0 <= k < spec_match_indices(f, airports, n).len() ==> {
                let i = #[trigger] spec_match_indices(f, airports, n)[k];
                0 <= i < n && spec_airport_matches(f, airports[i as int])
            },
        spec_match_indices(f, airports, n).len() <= if n >= 0 { n } else { 0 },
    decreases n,
{
    if n > 0 {
        lemma_match_indices_props(f, airports, n - 1);
        let p = spec_match_indices(f, airports, n - 1);
        let s = spec_match_indices(f, airports, n);
        assert forall|k: int| 0 <= k < s.len() implies {
            let i = #[trigger] s[k];
            0 <= i < n && spec_airport_matches(f, airports[i as int])
        } by {
            if spec_airport_matches(f, airports[n - 1]) {
                assert(s == p.push((n - 1) as usize));
                if k < p.len() {
                    assert(s[k] == p[k]);
                } else {
                    assert(s[k] == (n - 1) as usize);
                }
            } else {
                assert(s == p);
            }
        }
    }
}

/// Shorter prefixes of the catalog give prefixes of the match list.
pub proof fn lemma_match_indices_prefix(f: AirportFilters, airports: Seq<Airport>, m: int,
    n: int)
    requires
        0 <= m <= n,
    ensures
        spec_match_indices(f, airports, m).len() <= spec_match_indices(f, airports, n).len(),
        spec_match_indices(f, airports, n).take(
            spec_match_indices(f, airports, m).len() as int,
        ) == spec_match_indices(f, airports, m),
    decreases n - m,
{
    if m < n {
        lemma_match_indices_prefix(f, airports, m, n - 1);
        let pm = spec_match_indices(f, airports, m);
        let pn1 = spec_match_indices(f, airports, n - 1);
        let pn = spec_match_indices(f, airports, n);
        if spec_airport_matches(f, airports[n - 1]) {
            assert(pn == pn1.push((n - 1) as usize));
            assert(pn.take(pm.len() as int) =~= pn1.take(pm.len() as int));
        }
    } else {
        assert(spec_match_indices(f, airports, n).take(
            spec_match_indices(f, airports, m).len() as int,
        ) =~= spec_match_indices(f, airports, m));
    }
}

/// Every candidate index is in range and points at a matching airport.
pub proof fn lemma_candidates_props(f: AirportFilters, airports: Seq<Airport>)
    requires
        airports.len() <= usize::MAX,
    ensures
        forall|k: int|
            0 <= k < spec_candidates(f, airports).len() ==> {
                let i = #[trigger] spec_candidates(f, airports)[k];
                i < airports.len() && spec_airport_matches(f, airports[i as int])
            },
{
    lemma_match_indices_props(f, airports, airports.len() as int);
    let full = spec_match_indices(f, airports, airports.len() as int);
    let c = spec_candidates(f, airports);
    assert forall|k: int| 0 <= k < c.len() implies {
        let i = #[trigger] c[k];
        i < airports.len() && spec_airport_matches(f, airports[i as int])
    } by {
        assert(c[k] == full[k]);
    }
}

impl AirportFilters {
    /// Whether some entry of the list equals the name up to ASCII case.
    pub fn list_has_any(name: &str, list: &Vec<String>) -> (r: bool)
        ensures
            r == spec_country_listed(list@, name@),
    {
        let mut i: usize = 0;
        while i < list.len()
            invariant
                i <= list@.len(),
                forall|j: int|
                    0 <= j < i ==> !spec_eq_ignore_case((#[trigger] list@[j])@, name@),
            decreases list@.len() - i,
        {
            if eq_ignore_ascii_case(list[i].as_str(), name) {
                return true;
            }
            i = i + 1;
        }
        false
    }

    /// Whether the airport satisfies every present predicate, identifier
    /// aside.
    pub fn airport_matches(&self, airport: &Airport) -> (r: bool)
        ensures
            r == spec_airport_matches(*self, *airport),
    {
        let type_ok = match self.airport_type {
            AirportType::Unknown => true,
            t => airport.class == t,
        };
        if !type_ok {
            return false;
        }
        let runway_ok = match self.runway_length {
            Some(len) => len.fits_any(&airport.runways),
            None => true,
        };
        if !runway_ok {
            return false;
        }
        self.countries.any_match(airport.country_name.as_str())
    }

    /// The candidate set of this filter over the catalog.
    ///
    /// With an identifier present, the lookup is a binary search: the
    /// result is that airport alone, or empty when the identifier is
    /// unknown.  Without one, the catalog is scanned in order and up to
    /// MAX_AIRPORTS_TO_GET matching airports are collected.
    pub fn matching_airports(&self, airports: &Vec<Airport>) -> (r: Vec<usize>)
        requires
            catalog_wf(airports@),
        ensures
            r@.len() <= MAX_AIRPORTS_TO_GET,
            forall|k: int| 0 <= k < r@.len() ==> (#[trigger] r@[k]) < airports@.len(),
            match self.icao {
                Some(code) => {
                    if spec_has_icao(airports@, code@) {
                        r@.len() == 1 && airports@[r@[0] as int].icao.0@ == code@
                    } else {
                        r@.len() == 0
                    }
                },
                None => r@ == spec_candidates(*self, airports@),
            },
    {
        if let Some(code) = &self.icao {
            return match find_by_icao(code.as_str(), airports) {
                Some(i) => {
                    proof {
                        assert(spec_has_icao(airports@, code@));
                    }
                    vec![i]
                },
                None => Vec::new(),
            };
        }
        let mut results: Vec<usize> = Vec::new();
        let mut i: usize = 0;
        while i < airports.len() && results.len() < MAX_AIRPORTS_TO_GET
            invariant
                i <= airports@.len(),
                results@ == spec_match_indices(*self, airports@, i as int),
                results@.len() <= MAX_AIRPORTS_TO_GET,
                forall|k: int| 0 <= k < results@.len() ==> (#[trigger] results@[k]) < airports@.len(),
            decreases airports@.len() - i,
        {
            if self.airport_matches(&airports[i]) {
                results.push(i);
            }
            i = i + 1;
        }
        proof {
            let full = spec_match_indices(*self, airports@, airports@.len() as int);
            if i == airports@.len() {
                assert(results@ == full);
                if full.len() <= MAX_AIRPORTS_TO_GET {
                    assert(results@ == spec_candidates(*self, airports@));
                }
            } else {
                assert(results@.len() == MAX_AIRPORTS_TO_GET);
                lemma_match_indices_prefix(*self, airports@, i as int,
                    airports@.len() as int);
                assert(full.take(results@.len() as int) == results@);
                assert(full.len() > MAX_AIRPORTS_TO_GET
                    || full.len() == MAX_AIRPORTS_TO_GET);
                if full.len() == MAX_AIRPORTS_TO_GET {
                    assert(full.take(MAX_AIRPORTS_TO_GET as int) =~= full);
                }
            }
        }
        results
    }
}

/// A filter whose fields are all absent or empty matches every airport.
pub proof fn lemma_empty_filter_matches_all(f: AirportFilters, a: Airport)
    requires
        f.airport_type == AirportType::Unknown,
        f.runway_length is None,
        f.countries.0@.len() == 0,
    ensures
        spec_airport_matches(f, a),
{
}

/// Over any catalog prefix, a filter whose fields are all absent or
/// empty collects every index.
pub proof fn lemma_empty_filter_collects_all(f: AirportFilters, airports: Seq<Airport>, n: int)
    requires
        f.airport_type == AirportType::Unknown,
        f.runway_length is None,
        f.countries.0@.len() == 0,
        0 <= n <= airports.len(),
    ensures
        spec_match_indices(f, airports, n).len() == n,
    decreases n,
{
    if n > 0 {
        lemma_empty_filter_collects_all(f, airports, n - 1);
        lemma_empty_filter_matches_all(f, airports[n - 1]);
    }
}

} // verus!
