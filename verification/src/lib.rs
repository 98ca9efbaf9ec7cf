//! Two small sequence producers: one that may be absent, and one that repeats
//! each value of a list a given number of times.

pub mod opt;
pub mod producer;
pub mod sequence;
