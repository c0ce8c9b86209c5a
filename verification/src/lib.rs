//! Population-weighted partitioning of postal codes.
//!
//! A population table sums a count of people over every leading part of the
//! codes it is given. The partition cuts the tree of those leading parts
//! into chunks of roughly a target population, and the classifier answers
//! which chunk a code belongs to by its longest leading part that names one.

pub mod builder;
pub mod counting;
pub mod decode;
pub mod digits;
pub mod errors;
pub mod laws;
pub mod partition;
pub mod population;
pub mod zip2010;
