//! Query-parameter expansion, fail-fast dispatch bookkeeping and column
//! decoding for a multi-partition query runner.
pub mod bytes;
pub mod calendar;
pub mod config;
pub mod dispatch;
pub mod error;
pub mod grammar;
pub mod params;
pub mod steps;
pub mod text;
pub mod value;
