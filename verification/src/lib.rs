//! Classical computational-geometry algorithms exposed as explicit,
//! resumable steppers: every algorithm advances one atomic unit of work at a
//! time, producing a new immutable state and a description of what happened,
//! so a driver can record the full trace of intermediate states.
//!
//! Coordinates are bounded integers, which keeps every geometric predicate
//! (orientation, squared distance, segment intersection) exact.

pub mod algos;
pub mod common;
