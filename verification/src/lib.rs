//! Move ordering for an alpha-beta chess search: a staged, pull-based stream
//! that yields the legal moves of one position in priority order — the hash
//! move first, then captures (and the killer move) by descending score, then
//! quiet moves, then deferred underpromotions.

pub mod model;
pub mod counting;
pub mod ordering;
pub mod board;
pub mod laws;
