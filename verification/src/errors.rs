//! Typed failures surfaced to the caller, carrying enough context to
//! reproduce them.  Turning them into user-facing text is left to the
//! surrounding application.

pub mod input;
pub mod network;
