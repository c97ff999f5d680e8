use vstd::prelude::*;

pub mod boot;
pub mod bootstrap;
pub mod compose;
pub mod crawl;
pub mod field;
pub mod geometry;
pub mod json;
pub mod mounts;
pub mod order;
pub mod page;
pub mod probe;
pub mod protocol;
pub mod recycle;
pub mod search;
pub mod serve;
pub mod settings;
pub mod stub;
pub mod telemetry;
pub mod text;
pub mod timing;
pub mod transpile;
pub mod tree;
pub mod underlay;
pub mod url;
pub mod workspace;

verus! {

} // verus!
