//! The core of a spec-driven change workflow over a git repository: a content-addressed
//! file index, contiguous sharding, memoized dispatch of one unit of work per changed
//! shard with a serial merge of their outcomes, a per-change state document with an
//! approval step, and the check that code changes come with a spec update and the
//! change's artifacts.
use vstd::prelude::*;

pub mod digest;
pub mod exec;
pub mod gate;
pub mod index;
pub mod lines;
pub mod orchestrate;
pub mod order;
pub mod paths;
pub mod quality;
pub mod shard;
pub mod state;
pub mod table;
pub mod templates;
pub mod text;
pub mod workflow;

verus! {

} // verus!
