//! Core of a task-parallel execution framework for structured, grid-based
//! computations that advance in discrete synchronous stages.
//!
//! The library models a group of recurring compute tasks (automata) that
//! exchange typed messages with a subset of their peers in each stage. A
//! coordinator routes messages between co-located tasks and hands messages
//! for remote tasks to a pluggable byte transport (a communicator). Every
//! routing decision the coordinator makes is verified; the transports that
//! touch sockets or threads live outside this crate and are built from the
//! verified framing and stamp-matching pieces exported here.

pub mod automaton;
pub mod coder;
pub mod meshing;
pub mod message;
pub mod scheduling;
pub mod stamp;
pub mod tasks;
pub mod util;
