//! Change notification for a scan-cycle rule engine.
//!
//! The engine evaluates a ladder-logic program over boolean signals and
//! coils. This crate holds the part that sits between the engine and its
//! host: snapshots of coil and signal values, the difference between two
//! snapshots, and the registry of handlers that is told about each coil
//! transition and about the end of every cycle.

pub mod callbacks;
pub mod coils;
pub mod cycle;
pub mod diff;
pub mod error;
pub mod laws;
pub mod names;
pub mod signals;
pub mod states;

pub use callbacks::{CallbackManager, CoilChangeCallback, CycleCompleteCallback};
pub use error::{Error, Result};
