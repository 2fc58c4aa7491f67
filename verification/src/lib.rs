//! A small flight-route search library.
//!
//! The library keeps an immutable catalog of airports, sorted by ICAO
//! identifier, and answers route queries: it filters departure and arrival
//! candidates by identifier, classification, runway length and country,
//! pairs them, computes great-circle distance and flight time for each
//! pair, applies an optional time-or-distance range constraint, and
//! returns a bounded, randomly sampled list of routes.
//!
//! All geometry is carried out in fixed-point integer arithmetic:
//! positions are stored in microdegrees, angles in nanoradians and
//! distances in thousandths of a nautical mile, so that every step of the
//! computation has an exact, machine-checked contract.
//!
//! - [`geo`]: fixed-point trigonometry and the Haversine distance.
//! - [`text`]: verified string comparison, case folding and parsing.
//! - [`airport`]: the airport records and the sorted catalog.
//! - [`filter`]: airport filters and candidate-set construction.
//! - [`route`]: speeds, clamped times, ranges and route evaluation.
//! - [`search`]: the query entry points.
//! - [`data`]: the pure face of the airport dataset.

pub mod geo;
pub mod text;
pub mod airport;
pub mod filter;
pub mod route;
mod rng;
pub mod search;
pub mod data;
