//! The airport data model: identifiers, classifications, runways, radio
//! frequencies and positions, and the sorted catalog with its
//! binary-search lookup by identifier.

use vstd::prelude::*;

verus! {

use crate::geo::Position;
use crate::text::{
    spec_str_cmp, spec_str_lt, str_cmp, str_eq,
    lemma_str_cmp_eq, lemma_str_cmp_antisym, lemma_str_lt_trans, lemma_str_cmp_range,
    lemma_str_le_total, lemma_str_le_trans,
};

/// A 4-letter airport identifier, the catalog's unique key.
#[derive(Clone, Debug)]
pub struct ICAO(pub String);

impl ICAO {
    /// Accepts any nonempty identifier, and nothing else.
    pub fn parse(value: &str) -> (r: Option<ICAO>)
        ensures
            match r {
                Some(code) => code.0@ == value@ && value@.len() > 0,
                None => value@.len() == 0,
            },
    {
        if value.is_empty() {
            None
        } else {
            Some(ICAO(value.to_owned()))
        }
    }
}

/// The classification of an airport.  `Unknown` is the sentinel used when
/// a dataset value is not one of the six known classes; as a filter value
/// it means "no constraint".
#[derive(Clone, Copy, Debug, PartialEq, Eq, Structural)]
pub enum AirportType {
    Large,
    Medium,
    Small,
    Closed,
    Heliport,
    SeaplaneBase,
    Unknown,
}

/// The classification named by a dataset string, with `Unknown` for
/// anything unrecognised.
pub open spec fn spec_airport_type_of(s: Seq<char>) -> AirportType {
    if s == "large_airport"@ {
        AirportType::Large
    } else if s == "medium_airport"@ {
        AirportType::Medium
    } else if s == "small_airport"@ {
        AirportType::Small
    } else if s == "closed"@ {
        AirportType::Closed
    } else if s == "heliport"@ {
        AirportType::Heliport
    } else if s == "seaplane_base"@ {
        AirportType::SeaplaneBase
    } else {
        AirportType::Unknown
    }
}

impl AirportType {
    /// The lenient reading used on dataset rows: unrecognised values
    /// become `Unknown`.
    pub fn from_str(value: &str) -> (r: AirportType)
        ensures
            r == spec_airport_type_of(value@),
    {
        if str_eq(value, "large_airport") {
            AirportType::Large
        } else if str_eq(value, "medium_airport") {
            AirportType::Medium
        } else if str_eq(value, "small_airport") {
            AirportType::Small
        } else if str_eq(value, "closed") {
            AirportType::Closed
        } else if str_eq(value, "heliport") {
            AirportType::Heliport
        } else if str_eq(value, "seaplane_base") {
            AirportType::SeaplaneBase
        } else {
            AirportType::Unknown
        }
    }

    /// The strict reading used on request values: unrecognised values are
    /// rejected rather than defaulted.
    pub fn parse(value: &str) -> (r: Option<AirportType>)
        ensures
            match r {
                Some(t) => t == spec_airport_type_of(value@) && t != AirportType::Unknown,
                None => spec_airport_type_of(value@) == AirportType::Unknown,
            },
    {
        let t = AirportType::from_str(value);
        if t == AirportType::Unknown {
            None
        } else {
            Some(t)
        }
    }
}

impl Default for AirportType {
    fn default() -> (r: Self)
        ensures
            r == AirportType::Unknown,
    {
        AirportType::Unknown
    }
}

/// The kind of a published radio frequency.  `Other` marks dataset rows
/// whose kind the loader does not keep.
#[derive(Clone, Copy, Debug, PartialEq, Eq, Structural)]
pub enum FrequencyType {
    Atis,
    Arrival,
    Departure,
    ArrivalDeparture,
    Ground,
    Tower,
    Unicom,
    Other,
}

/// The frequency kind named by a dataset string.
pub open spec fn spec_frequency_type_of(s: Seq<char>) -> FrequencyType {
    if s == "ATIS"@ {
        FrequencyType::Atis
    } else if s == "APP"@ || s == "ARR"@ {
        FrequencyType::Arrival
    } else if s == "DEP"@ {
        FrequencyType::Departure
    } else if s == "A/D"@ {
        FrequencyType::ArrivalDeparture
    } else if s == "GND"@ || s == "GROUND"@ {
        FrequencyType::Ground
    } else if s == "TWR"@ || s == "TOWER"@ {
        FrequencyType::Tower
    } else if s == "UNIC"@ || s == "UNICOM"@ {
        FrequencyType::Unicom
    } else {
        FrequencyType::Other
    }
}

impl FrequencyType {
    pub fn from_str(value: &str) -> (r: FrequencyType)
        ensures
            r == spec_frequency_type_of(value@),
    {
        if str_eq(value, "ATIS") {
            FrequencyType::Atis
        } else if str_eq(value, "APP") || str_eq(value, "ARR") {
            FrequencyType::Arrival
        } else if str_eq(value, "DEP") {
            FrequencyType::Departure
        } else if str_eq(value, "A/D") {
            FrequencyType::ArrivalDeparture
        } else if str_eq(value, "GND") || str_eq(value, "GROUND") {
            FrequencyType::Ground
        } else if str_eq(value, "TWR") || str_eq(value, "TOWER") {
            FrequencyType::Tower
        } else if str_eq(value, "UNIC") || str_eq(value, "UNICOM") {
            FrequencyType::Unicom
        } else {
            FrequencyType::Other
        }
    }

    pub fn is_other(self) -> (r: bool)
        ensures
            r == (self == FrequencyType::Other),
    {
        self == FrequencyType::Other
    }
}

/// The radio frequencies of an airport, one optional value per kind.
#[derive(Clone, Debug)]
pub struct Frequencies {
    pub atis: Option<String>,
    pub arrival: Option<String>,
    pub departure: Option<String>,
    pub arrival_departure: Option<String>,
    pub ground: Option<String>,
    pub tower: Option<String>,
    pub unicom: Option<String>,
}

impl Frequencies {
    pub fn new() -> (r: Frequencies)
        ensures
            r.atis is None,
            r.arrival is None,
            r.departure is None,
            r.arrival_departure is None,
            r.ground is None,
            r.tower is None,
            r.unicom is None,
    {
        Frequencies {
            atis: None,
            arrival: None,
            departure: None,
            arrival_departure: None,
            ground: None,
            tower: None,
            unicom: None,
        }
    }

    /// Record a frequency under its kind; an `Other` value is dropped.
    pub fn set(&mut self, kind: FrequencyType, mhz: String)
        ensures
            final(self).atis == if kind == FrequencyType::Atis { Some(mhz) } else {
                old(self).atis
            },
            final(self).arrival == if kind == FrequencyType::Arrival { Some(mhz) } else {
                old(self).arrival
            },
            final(self).departure == if kind == FrequencyType::Departure { Some(mhz) } else {
                old(self).departure
            },
            final(self).arrival_departure == if kind == FrequencyType::ArrivalDeparture {
                Some(mhz)
            } else {
                old(self).arrival_departure
            },
            final(self).ground == if kind == FrequencyType::Ground { Some(mhz) } else {
                old(self).ground
            },
            final(self).tower == if kind == FrequencyType::Tower { Some(mhz) } else {
                old(self).tower
            },
            final(self).unicom == if kind == FrequencyType::Unicom { Some(mhz) } else {
                old(self).unicom
            },
    {
        match kind {
            FrequencyType::Atis => self.atis = Some(mhz),
            FrequencyType::Arrival => self.arrival = Some(mhz),
            FrequencyType::Departure => self.departure = Some(mhz),
            FrequencyType::ArrivalDeparture => self.arrival_departure = Some(mhz),
            FrequencyType::Ground => self.ground = Some(mhz),
            FrequencyType::Tower => self.tower = Some(mhz),
            FrequencyType::Unicom => self.unicom = Some(mhz),
            FrequencyType::Other => (),
        }
    }
}

/// One end of a runway: its marker name and its position.
#[derive(Clone, Debug)]
pub struct RunwayMarker {
    pub name: String,
    pub position: Position,
}

impl RunwayMarker {
    pub fn new(name: String, position: Position) -> (r: RunwayMarker)
        ensures
            r.name == name,
            r.position == position,
    {
        RunwayMarker { name, position }
    }
}

/// A runway.  An absent length or width means "unknown", and an unknown
/// length never satisfies a runway-length filter.
#[derive(Clone, Debug)]
pub struct Runway {
    pub length_ft: Option<u32>,
    pub width_ft: Option<u32>,
    pub he_marker: Option<RunwayMarker>,
    pub le_marker: Option<RunwayMarker>,
}

/// An airport record.  Immutable after the catalog is built.
#[derive(Clone, Debug)]
pub struct Airport {
    pub icao: ICAO,
    pub class: AirportType,
    pub position: Position,
    pub runways: Vec<Runway>,
    pub frequencies: Frequencies,
    pub country_name: String,
}

impl Airport {
    /// A record the route search can work on: its position is in range.
    pub open spec fn wf(self) -> bool {
        self.position.wf()
    }
}

/// The catalog invariant: airports sorted strictly ascending by ICAO
/// identifier (so identifiers are unique), every position in range.
pub open spec fn catalog_wf(airports: Seq<Airport>) -> bool {
    &&& forall|i: int, j: int|
        0 <= i < j < airports.len() ==> spec_str_lt(
            #[trigger] airports[i].icao.0@,
            #[trigger] airports[j].icao.0@,
        )
    &&& forall|i: int| 0 <= i < airports.len() ==> (#[trigger] airports[i]).wf()
}

/// Whether some airport of the catalog carries the given identifier.
pub open spec fn spec_has_icao(airports: Seq<Airport>, icao: Seq<char>) -> bool {
    exists|i: int| 0 <= i < airports.len() && (#[trigger] airports[i].icao.0@) == icao
}

/// A catalog whose neighbours are in order is in order throughout.
proof fn lemma_adjacent_sorted(airports: Seq<Airport>, i: int, j: int)
    requires
        forall|k: int|
            0 <= k < airports.len() - 1 ==> spec_str_lt(
                #[trigger] airports[k].icao.0@,
                airports[k + 1].icao.0@,
            ),
        0 <= i < j < airports.len(),
    ensures
        spec_str_lt(airports[i].icao.0@, airports[j].icao.0@),
    decreases j - i,
{
    if j == i + 1 {
        assert(spec_str_lt(airports[i].icao.0@, airports[i + 1].icao.0@));
    } else {
        lemma_adjacent_sorted(airports, i, j - 1);
        assert(spec_str_lt(airports[j - 1].icao.0@, airports[j - 1 + 1].icao.0@));
        lemma_str_lt_trans(airports[i].icao.0@, airports[j - 1].icao.0@,
            airports[j].icao.0@);
    }
}

/// Check the catalog invariant at run time: every position in range,
/// and identifiers strictly ascending.  The loader's output must pass
/// this check before the catalog serves queries.
pub fn catalog_is_wf(airports: &Vec<Airport>) -> (r: bool)
    ensures
        r == catalog_wf(airports@),
{
    let n = airports.len();
    let mut i: usize = 0;
    while i < n
        invariant
            i <= n,
            n == airports@.len(),
            forall|k: int| 0 <= k < i ==> (#[trigger] airports@[k]).wf(),
            forall|k: int|
                0 <= k < i && k < n - 1 ==> spec_str_lt(
                    #[trigger] airports@[k].icao.0@,
                    airports@[k + 1].icao.0@,
                ),
        decreases n - i,
    {
        let p = airports[i].position;
        if p.lat_udeg < -90_000_000 || p.lat_udeg > 90_000_000 || p.lon_udeg < -180_000_000
            || p.lon_udeg > 180_000_000 {
            return false;
        }
        if i + 1 < n {
            let c = str_cmp(airports[i].icao.0.as_str(), airports[i + 1].icao.0.as_str());
            proof {
                lemma_str_cmp_range(airports@[i as int].icao.0@,
                    airports@[i as int + 1].icao.0@);
            }
            if c >= 0 {
                return false;
            }
        }
        i = i + 1;
    }
    proof {
        assert forall|a: int, b: int|
            0 <= a < b < airports@.len() implies spec_str_lt(
            #[trigger] airports@[a].icao.0@,
            #[trigger] airports@[b].icao.0@,
        ) by {
            lemma_adjacent_sorted(airports@, a, b);
        }
    }
    true
}

/// Identifiers in nondecreasing order: the state after sorting, before
/// duplicates are dropped.
pub open spec fn sorted_le_by_icao(airports: Seq<Airport>) -> bool {
    forall|i: int, j: int|
        0 <= i < j < airports.len() ==> spec_str_cmp(
            #[trigger] airports[i].icao.0@,
            #[trigger] airports[j].icao.0@,
        ) <= 0
}

fn icao_le(a: &Airport, b: &Airport) -> (r: bool)
    ensures
        r == (spec_str_cmp(a.icao.0@, b.icao.0@) <= 0),
{
    str_cmp(a.icao.0.as_str(), b.icao.0.as_str()) <= 0
}

/// Drop the records whose position is out of range: the well-formed
/// records, in their original order.
pub open spec fn spec_wf_records(records: Seq<Airport>) -> Seq<Airport>
    decreases records.len(),
{
    if records.len() == 0 {
        Seq::<Airport>::empty()
    } else {
        let rest = spec_wf_records(records.drop_last());
        if records.last().wf() {
            rest.push(records.last())
        } else {
            rest
        }
    }
}

proof fn lemma_wf_records_props(records: Seq<Airport>)
    ensures
        forall|k: int|
            0 <= k < spec_wf_records(records).len() ==> records.contains(
                #[trigger] spec_wf_records(records)[k],
            ) && spec_wf_records(records)[k].wf(),
        forall|j: int|
            0 <= j < records.len() && (#[trigger] records[j]).wf() ==> spec_wf_records(
                records,
            ).contains(records[j]),
    decreases records.len(),
{
    if records.len() > 0 {
        lemma_wf_records_props(records.drop_last());
        let prev = spec_wf_records(records.drop_last());
        let cur = spec_wf_records(records);
        assert forall|k: int|
            0 <= k < cur.len() implies records.contains(#[trigger] cur[k])
            && cur[k].wf() by {
            if k < prev.len() {
                assert(cur[k] == prev[k]);
                assert(records.drop_last().contains(prev[k]));
                let t = choose|t: int|
                    0 <= t < records.drop_last().len() && records.drop_last()[t] == prev[k];
                assert(records[t] == prev[k]);
            } else {
                assert(cur[k] == records.last());
                assert(records[records.len() - 1] == records.last());
            }
        }
        assert forall|j: int|
            0 <= j < records.len() && (#[trigger] records[j]).wf() implies cur.contains(
            records[j],
        ) by {
            if j < records.len() - 1 {
                assert(records.drop_last()[j] == records[j]);
                assert(prev.contains(records[j]));
                let t = choose|t: int| 0 <= t < prev.len() && prev[t] == records[j];
                if records.last().wf() {
                    assert(cur[t] == records[j]);
                } else {
                    assert(cur == prev);
                }
            } else {
                assert(records.last() == records[j]);
                assert(cur[cur.len() - 1] == records[j]);
            }
        }
    }
}

/// Sort airports in place by identifier, by insertion.
fn sort_by_icao(airports: &mut Vec<Airport>)
    ensures
        final(airports)@.len() == old(airports)@.len(),
        final(airports)@.to_multiset() == old(airports)@.to_multiset(),
        sorted_le_by_icao(final(airports)@),
{
    broadcast use vstd::seq_lib::group_to_multiset_ensures;
    broadcast use vstd::multiset::group_multiset_axioms;

    let ghost initial = airports@;
    let n = airports.len();
    let mut i: usize = 1;
    while i < n
        invariant
            1 <= i <= n || (n == 0 && i == 1),
            n == airports@.len(),
            airports@.to_multiset() == initial.to_multiset(),
            forall|a: int, b: int|
                0 <= a < b < i && b < n ==> spec_str_cmp(
                    #[trigger] airports@[a].icao.0@,
                    #[trigger] airports@[b].icao.0@,
                ) <= 0,
        decreases n - i,
    {
        let ghost before = airports@;
        let x = airports.remove(i);
        let mut j: usize = i;
        while j > 0 && !icao_le(&airports[j - 1], &x)
            invariant
                j <= i < n,
                airports@.len() == n - 1,
                x == before[i as int],
                airports@ == before.remove(i as int),
                forall|p: int|
                    j <= p < i ==> spec_str_cmp(x.icao.0@,
                        (#[trigger] airports@[p]).icao.0@) <= 0,
            decreases j,
        {
            proof {
                lemma_str_le_total(airports@[j as int - 1].icao.0@, x.icao.0@);
            }
            j = j - 1;
        }
        airports.insert(j, x);
        proof {
            let removed = before.remove(i as int);
            let after = airports@;
            assert(after == removed.insert(j as int, x));
            before.remove_ensures(i as int);
            removed.insert_ensures(j as int, x);
            vstd::seq_lib::to_multiset_remove::<Airport>(before, i as int);
            vstd::seq_lib::to_multiset_insert::<Airport>(removed, j as int, x);
            assert(before.contains(x));
            vstd::seq_lib::to_multiset_contains::<Airport>(before, x);
            assert(after.to_multiset() =~= before.to_multiset());
            assert(forall|t: int| 0 <= t < j ==> #[trigger] after[t] == before[t]);
            assert(after[j as int] == x);
            assert(forall|t: int| j < t <= i ==> #[trigger] after[t] == before[t - 1]);
            assert forall|a: int, b: int|
                0 <= a < b <= i implies spec_str_cmp(
                (#[trigger] after[a]).icao.0@,
                (#[trigger] after[b]).icao.0@,
            ) <= 0 by {
                if b < j {
                } else if b == j {
                    assert(a < j);
                    assert(spec_str_cmp(before[j - 1].icao.0@, x.icao.0@) <= 0);
                    if a < j - 1 {
                        lemma_str_le_trans(before[a].icao.0@, before[j - 1].icao.0@,
                            x.icao.0@);
                    }
                } else if a < j {
                    assert(after[b] == before[b - 1]);
                    assert(j <= b - 1 < i);
                    assert(spec_str_cmp(x.icao.0@, before[b - 1].icao.0@) <= 0);
                    assert(spec_str_cmp(before[j - 1].icao.0@, x.icao.0@) <= 0);
                    if a < j - 1 {
                        lemma_str_le_trans(before[a].icao.0@, before[j - 1].icao.0@,
                            x.icao.0@);
                    }
                    lemma_str_le_trans(after[a].icao.0@, x.icao.0@, after[b].icao.0@);
                } else if a == j {
                    assert(after[b] == before[b - 1]);
                    assert(spec_str_cmp(x.icao.0@, before[b - 1].icao.0@) <= 0);
                } else {
                    assert(after[a] == before[a - 1]);
                    assert(after[b] == before[b - 1]);
                }
            }
        }
        i = i + 1;
    }
}

/// Build the catalog from loader records: records with out-of-range
/// positions are dropped, the rest are sorted ascending by identifier,
/// and one record is kept per identifier.  The result satisfies the
/// catalog invariant, holds only input records, and covers the
/// identifier of every well-formed input record.
pub fn build_catalog(records: Vec<Airport>) -> (r: Vec<Airport>)
    ensures
        catalog_wf(r@),
        forall|k: int| 0 <= k < r@.len() ==> records@.contains(#[trigger] r@[k]),
        forall|j: int|
            0 <= j < records@.len() && (#[trigger] records@[j]).wf() ==> spec_has_icao(
                r@,
                records@[j].icao.0@,
            ),
{
    broadcast use vstd::seq_lib::group_to_multiset_ensures;

    let ghost input = records@;
    let mut records = records;
    let mut kept: Vec<Airport> = Vec::new();
    while records.len() > 0
        invariant
            records@.len() <= input.len(),
            records@ == input.skip(input.len() - records@.len()),
            kept@ == spec_wf_records(input.take(input.len() - records@.len())),
        decreases records@.len(),
    {
        let ghost done = input.len() - records@.len();
        let rec = records.remove(0);
        proof {
            assert(input.skip(done)[0] == input[done]);
            assert(rec == input[done]);
            assert(input.skip(done).subrange(1, input.skip(done).len() as int)
                =~= input.skip(done + 1));
            assert(input.take(done + 1).drop_last() =~= input.take(done));
            assert(input.take(done + 1).last() == input[done]);
        }
        let p = rec.position;
        if p.lat_udeg >= -90_000_000 && p.lat_udeg <= 90_000_000 && p.lon_udeg >= -180_000_000
            && p.lon_udeg <= 180_000_000 {
            kept.push(rec);
        }
    }
    proof {
        assert(input.take(input.len() as int) =~= input);
        assert(kept@ == spec_wf_records(input));
        lemma_wf_records_props(input);
    }
    let ghost filtered = kept@;
    sort_by_icao(&mut kept);
    let ghost sorted = kept@;
    proof {
        assert forall|k: int| 0 <= k < sorted.len() implies (#[trigger] sorted[k]).wf() by {
            assert(sorted.contains(sorted[k]));
            vstd::seq_lib::to_multiset_contains::<Airport>(sorted, sorted[k]);
            vstd::seq_lib::to_multiset_contains::<Airport>(filtered, sorted[k]);
            assert(filtered.contains(sorted[k]));
            let v = choose|v: int| 0 <= v < filtered.len() && filtered[v] == sorted[k];
            assert(filtered[v].wf());
        }
    }

    let mut out: Vec<Airport> = Vec::new();
    let mut t: usize = 0;
    let total = kept.len();
    let mut kept = kept;
    while t < total
        invariant
            t <= total,
            total == sorted.len(),
            kept@ == sorted.skip(t as int),
            sorted_le_by_icao(sorted),
            catalog_wf(out@),
            forall|k: int| 0 <= k < out@.len() ==> sorted.contains(#[trigger] out@[k]),
            forall|u: int|
                0 <= u < t ==> spec_has_icao(out@, (#[trigger] sorted[u]).icao.0@),
            t == 0 ==> out@.len() == 0,
            t > 0 ==> out@.len() > 0 && out@.last().icao.0@ == sorted[t - 1].icao.0@,
            forall|k: int| 0 <= k < sorted.len() ==> (#[trigger] sorted[k]).wf(),
        decreases total - t,
    {
        let ghost prev_out = out@;
        let rec = kept.remove(0);
        proof {
            assert(sorted.skip(t as int)[0] == sorted[t as int]);
            assert(rec == sorted[t as int]);
            assert(sorted.skip(t as int).subrange(1, sorted.skip(t as int).len() as int)
                =~= sorted.skip(t as int + 1));
        }
        let push_it = if out.len() == 0 {
            true
        } else {
            let c = str_cmp(out[out.len() - 1].icao.0.as_str(), rec.icao.0.as_str());
            proof {
                if c != 0 {
                    assert(spec_str_cmp(sorted[t - 1].icao.0@, sorted[t as int].icao.0@)
                        <= 0);
                    lemma_str_cmp_range(out@.last().icao.0@, rec.icao.0@);
                    assert(spec_str_lt(out@.last().icao.0@, rec.icao.0@));
                }
            }
            c != 0
        };
        if push_it {
            proof {
                if out@.len() > 0 {
                    assert(spec_str_lt(out@.last().icao.0@, rec.icao.0@));
                    assert forall|a: int|
                        0 <= a < out@.len() implies spec_str_lt(
                        (#[trigger] out@[a]).icao.0@,
                        rec.icao.0@,
                    ) by {
                        if a < out@.len() - 1 {
                            lemma_str_lt_trans(out@[a].icao.0@, out@.last().icao.0@,
                                rec.icao.0@);
                        }
                    }
                }
                assert(sorted.contains(rec)) by {
                    assert(sorted[t as int] == rec);
                }
            }
            out.push(rec);
            proof {
                assert forall|u: int|
                    0 <= u <= t implies spec_has_icao(out@, (#[trigger] sorted[u]).icao.0@)
                by {
                    if u < t {
                        let w = choose|w: int|
                            0 <= w < prev_out.len() && (#[trigger] prev_out[w].icao.0@)
                                == sorted[u].icao.0@;
                        assert(out@[w].icao.0@ == sorted[u].icao.0@);
                    } else {
                        assert(out@[out@.len() - 1].icao.0@ == sorted[u].icao.0@);
                    }
                }
            }
        } else {
            proof {
                assert(out@.last().icao.0@ == rec.icao.0@);
                assert(spec_has_icao(out@, sorted[t as int].icao.0@)) by {
                    assert(out@[out@.len() - 1].icao.0@ == sorted[t as int].icao.0@);
                }
            }
        }
        t = t + 1;
    }
    proof {
        assert forall|j: int|
            0 <= j < input.len() && (#[trigger] input[j]).wf() implies spec_has_icao(
            out@,
            input[j].icao.0@,
        ) by {
            assert(filtered.contains(input[j]));
            vstd::seq_lib::to_multiset_contains::<Airport>(filtered, input[j]);
            vstd::seq_lib::to_multiset_contains::<Airport>(sorted, input[j]);
            assert(sorted.contains(input[j]));
            let u = choose|u: int| 0 <= u < sorted.len() && sorted[u] == input[j];
            assert(spec_has_icao(out@, sorted[u].icao.0@));
        }
        assert forall|k: int|
            0 <= k < out@.len() implies input.contains(#[trigger] out@[k]) by {
            assert(sorted.contains(out@[k]));
            let u = choose|u: int| 0 <= u < sorted.len() && sorted[u] == out@[k];
            vstd::seq_lib::to_multiset_contains::<Airport>(sorted, out@[k]);
            vstd::seq_lib::to_multiset_contains::<Airport>(filtered, out@[k]);
            assert(filtered.contains(out@[k]));
            let v = choose|v: int| 0 <= v < filtered.len() && filtered[v] == out@[k];
            lemma_wf_records_props(input);
        }
    }
    out
}

/// In a well-formed catalog, distinct indices carry distinct identifiers.
pub proof fn lemma_distinct_icao(airports: Seq<Airport>, i: int, j: int)
    requires
        catalog_wf(airports),
        0 <= i < airports.len(),
        0 <= j < airports.len(),
        i != j,
    ensures
        airports[i].icao.0@ != airports[j].icao.0@,
{
    if i < j {
        assert(spec_str_lt(airports[i].icao.0@, airports[j].icao.0@));
    } else {
        assert(spec_str_lt(airports[j].icao.0@, airports[i].icao.0@));
    }
    if airports[i].icao.0@ == airports[j].icao.0@ {
        lemma_str_cmp_eq(airports[i].icao.0@, airports[j].icao.0@);
    }
}

/// An identifier names at most one index of a well-formed catalog.
pub proof fn lemma_icao_index_unique(airports: Seq<Airport>, code: Seq<char>, i: int, j: int)
    requires
        catalog_wf(airports),
        0 <= i < airports.len(),
        0 <= j < airports.len(),
        airports[i].icao.0@ == code,
        airports[j].icao.0@ == code,
    ensures
        i == j,
{
    if i != j {
        lemma_distinct_icao(airports, i, j);
    }
}

/// Look an identifier up in the sorted catalog by binary search.
/// Returns the index of the airport carrying it, and `None` exactly when
/// no airport does.
pub fn find_by_icao(icao: &str, airports: &Vec<Airport>) -> (r: Option<usize>)
    requires
        catalog_wf(airports@),
    ensures
        match r {
            Some(i) => i < airports@.len() && airports@[i as int].icao.0@ == icao@,
            None => !spec_has_icao(airports@, icao@),
        },
{
    let mut lo: usize = 0;
    let mut hi: usize = airports.len();
    while lo < hi
        invariant
            lo <= hi <= airports@.len(),
            catalog_wf(airports@),
            forall|j: int|
                0 <= j < lo ==> spec_str_lt(#[trigger] airports@[j].icao.0@, icao@),
            forall|j: int|
                hi <= j < airports@.len() ==> spec_str_lt(
                    icao@,
                    #[trigger] airports@[j].icao.0@,
                ),
        decreases hi - lo,
    {
        let mid = lo + (hi - lo) / 2;
        let c = str_cmp(icao, airports[mid].icao.0.as_str());
        if c == 0 {
            return Some(mid);
        } else if c < 0 {
            proof {
                lemma_str_cmp_range(icao@, airports@[mid as int].icao.0@);
                assert(spec_str_lt(icao@, airports@[mid as int].icao.0@));
                assert forall|j: int|
                    mid <= j < airports@.len() implies spec_str_lt(
                    icao@,
                    #[trigger] airports@[j].icao.0@,
                ) by {
                    if j > mid {
                        lemma_str_lt_trans(icao@, airports@[mid as int].icao.0@,
                            airports@[j].icao.0@);
                    }
                }
            }
            hi = mid;
        } else {
            proof {
                lemma_str_cmp_range(icao@, airports@[mid as int].icao.0@);
                lemma_str_cmp_antisym(icao@, airports@[mid as int].icao.0@);
                assert(spec_str_lt(airports@[mid as int].icao.0@, icao@));
                assert forall|j: int|
                    0 <= j <= mid implies spec_str_lt(
                    #[trigger] airports@[j].icao.0@,
                    icao@,
                ) by {
                    if j < mid {
                        lemma_str_lt_trans(airports@[j].icao.0@,
                            airports@[mid as int].icao.0@, icao@);
                    }
                }
            }
            lo = mid + 1;
        }
    }
    proof {
        assert forall|j: int|
            0 <= j < airports@.len() implies airports@[j].icao.0@ != icao@ by {
            lemma_str_cmp_eq(airports@[j].icao.0@, icao@);
            lemma_str_cmp_antisym(airports@[j].icao.0@, icao@);
        }
    }
    None
}

} // verus!
