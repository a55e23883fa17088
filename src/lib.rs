//! Two-stage warehouse order planning: units of ordered articles are grouped
//! into picking batches, and batches into dispatch waves.
pub mod config;
pub mod ga;
pub mod input;
pub mod model;
pub mod output;
