//! The pure face of the airport dataset: which file each kind of record
//! lives in, and the country records that give airports their country
//! names.  Reading and parsing the files is the loader's business,
//! outside this library; the names and records it works with are fixed
//! here.

use vstd::prelude::*;

verus! {

/// One kind of record of the airport dataset, each kept in a file of
/// its own.
#[derive(Clone, Copy, Debug, PartialEq, Eq, Structural)]
pub enum DataType {
    Airports,
    Runways,
    Frequencies,
    Countries,
}

impl DataType {
    /// The name of the dataset file holding this kind of record.
    pub fn filename(self) -> (r: &'static str)
        ensures
            self == DataType::Airports ==> r@ == "airports.csv"@,
            self == DataType::Runways ==> r@ == "runways.csv"@,
            self == DataType::Frequencies ==> r@ == "airport-frequencies.csv"@,
            self == DataType::Countries ==> r@ == "countries.csv"@,
    {
        match self {
            DataType::Airports => "airports.csv",
            DataType::Runways => "runways.csv",
            DataType::Frequencies => "airport-frequencies.csv",
            DataType::Countries => "countries.csv",
        }
    }
}

/// A country record: the ISO code airports refer to, and the display
/// name the country filter matches against.
#[derive(Clone, Debug)]
pub struct Country {
    pub id: i32,
    pub name: String,
    pub code: String,
}

} // verus!
