//! The seed schedule of the property harness.
//!
//! The harness itself runs cases and catches their panics, which is left to
//! the caller; what is decided here is which seed each case gets.

use vstd::prelude::*;

use crate::testkit::rng::{mix64, spec_mix64};

verus! {

/// Default seed base; fixed so CI runs are reproducible.
pub const DEFAULT_BASE: u64 = 0x7274_5f73_796e_6321;

/// The seed of case number `case` in a run whose seeds derive from `base`.
pub fn case_seed(base: u64, case: u64) -> (seed: u64)
    ensures
        seed == spec_mix64(base ^ spec_mix64(case)),
{
    mix64(base ^ mix64(case))
}

} // verus!
