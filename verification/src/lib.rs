//! Fish window filtering and schedule matching for a fishing tracker.
//!
//! Times are whole seconds since the Unix epoch.  The computation of a fish's
//! next catch window is handed in as a function value; everything that
//! decides what to do with those windows is verified here.
pub mod arith;
pub mod filter;
pub mod filter_laws;
pub mod fish;
pub mod query;
pub mod query_laws;
pub mod schedule;
pub mod text;
