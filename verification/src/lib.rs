use vstd::prelude::*;

pub mod config;
pub mod engine;
pub mod file;
pub mod file_store;
pub mod graph;
pub mod hashes;
pub mod index;
pub mod rule;
pub mod text;

verus! {

} // verus!
