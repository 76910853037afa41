//! The output side of a PubGrub-style resolver: package identities, the pinned
//! resolution graph, the environment marker that keeps a resolution valid, and
//! the canonical lockfile rendering.
use vstd::prelude::*;

pub mod text;
pub mod sort;
pub mod version;
pub mod marker;
pub mod dist;
pub mod package;
pub mod input;
pub mod graph;
pub mod display;

verus! {

} // verus!
