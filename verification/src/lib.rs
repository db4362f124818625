//! The computing core of a viewer that shows a unified diff (a patch) as the
//! old and new contents of each file that it touches.
use vstd::prelude::*;

pub mod hunk;
pub mod laws;
pub mod patch;
pub mod pathmap;
pub mod properties;
pub mod paths;
pub mod text;
pub mod view;

verus! {

} // verus!
