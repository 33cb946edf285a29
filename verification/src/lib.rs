//! A stop-the-world tracing garbage collector core.
//!
//! The engine owns a heap of objects and a table of named roots. Objects
//! refer to each other by stable integer identities; the collector marks
//! everything reachable from the roots and sweeps the rest.

pub mod gc;
pub mod heap;
pub mod item;
pub mod reach;
pub mod roots;
