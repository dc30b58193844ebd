//! Seed sequences: the 64-bit values that a seeded process is started with,
//! chosen one at a time, at random, over a range or over the whole space.

pub mod cli;
pub mod decimal;
pub mod sequence;
