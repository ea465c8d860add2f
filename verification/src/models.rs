//! The documents that the statistics service sends and takes, as plain
//! values. Maps keyed by text are kept as lists of pairs, in the order of the
//! document.

pub mod data;
pub mod metadata;
