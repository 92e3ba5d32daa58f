//! A KZG-style polynomial commitment over BLS12-381 with a degree-bounded
//! blinding term, a two-point challenge protocol, and the recovery procedure
//! that tells which private record a published commitment hides.

pub mod field;
pub mod curve;
pub mod domain;
pub mod poly;
pub mod generate;
pub mod bundle;
