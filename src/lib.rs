//! High-dynamic-range reconstruction from a stack of exposures: median
//! threshold bitmap alignment, and the integer side of Debevec's
//! response-curve recovery (stratified sampling, weights, system layout).
use vstd::prelude::*;

pub mod image;
pub mod gray;
pub mod bitmap;
pub mod alignment;
pub mod response;

verus! {

} // verus!
