//! Test support: a seeded generator, value generators biased towards edge
//! cases, and the seed schedule of the property harness.

pub mod generate;
pub mod prop;
pub mod rng;
