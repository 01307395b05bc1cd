//! Per-station minimum, mean and maximum over a large file of
//! `station;temperature` lines.
//!
//! The input is cut into ranges between lines ([`plan`]). Each range is
//! scanned for newlines ([`find`]), split line by line into station and
//! temperature ([`chunk`], [`temperature`]) and aggregated into an
//! open-addressed table ([`hashtable`], [`hash`], [`stat`]). The partial
//! aggregates are merged ([`merge`], [`order`]) and written as one line
//! ([`report`]). [`summary`] runs all of it on one thread; [`aggregate`] and
//! [`partition`] hold the mathematics that shows why the ranges can as well
//! be run apart.

pub mod aggregate;
pub mod chunk;
pub mod error;
pub mod find;
pub mod hash;
pub mod hashtable;
pub mod merge;
pub mod order;
pub mod partition;
pub mod plan;
pub mod report;
pub mod stat;
pub mod summary;
pub mod temperature;
