//! Rally timing comparison library.
//!
//! The library models stage times for a rally event, computes
//! distance-normalized deltas between competitors, derives split and
//! sector time series, and lays out a comparison report as an ordered
//! sequence of styled cell writes. An unverified shell around the
//! library loads result data and encodes the report as a spreadsheet
//! file.

pub mod spreadsheet;
pub mod structures;
pub mod text;
