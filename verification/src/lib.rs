use vstd::prelude::*;

pub mod backtest;
pub mod book;
pub mod caveats;
pub mod config;
pub mod data;
pub mod dates;
pub mod engine;
pub mod firm;
pub mod layout;
pub mod live;
pub mod number;
pub mod policy;
pub mod plan;
pub mod predictions;
pub mod render;
pub mod runs;
pub mod signal;
pub mod shell;
pub mod repo;
pub mod snapshots;
pub mod sort;
pub mod strategies;
pub mod table;
pub mod text;

verus! {

} // verus!
