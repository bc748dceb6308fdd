//! Verified core of a sweep-surface tool: the text format that describes the
//! cross sections of an object, the choice of spline kind, and the index
//! bookkeeping of sweeping sections along a spline.
use vstd::prelude::*;

pub mod strings;
pub mod parse_dat;
pub mod section;

verus! {

} // verus!
