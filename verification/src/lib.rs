//! A sparse 64-ary voxel tree with palette compression and a bounded streaming cache.
use vstd::prelude::*;

pub mod api;
pub mod arena;
pub mod bitmap;
pub mod brick_update;
pub mod bytecode;
pub mod cache;
pub mod cache_types;
pub mod census;
pub mod compaction;
pub mod decode;
pub mod detail;
pub mod fill;
pub mod flatness;
pub mod leaf;
pub mod node;
pub mod object_pool;
pub mod palette;
pub mod path;
pub mod palette_store;
pub mod reading;
pub mod restore;
pub mod semantics;
pub mod simplify;
pub mod slot_map;
pub mod spatial;
pub mod tree;
pub mod types;
pub mod update;
pub mod victim;
pub mod view;
pub mod write;

verus! {

} // verus!
