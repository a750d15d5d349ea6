//! Fortune files: finding them, reading their records, and choosing among the
//! records either at random or by a text pattern.
pub mod config;
pub mod error;
pub mod fortune;
pub mod lines;
pub mod matcher;
pub mod order;
pub mod pattern;
pub mod resolve;
pub mod run;
pub mod scan;
pub mod seed;
pub mod select;
pub mod store;
