//! Script-driven command dispatch for a fleet of UDP-controlled drones.
//!
//! The crate holds the rules of the operator console: how a script line is
//! read, which drones a command goes to, how each drone's outbound queue and
//! its counter of blocking commands evolve, and when a barrier may pass.
//! Sockets, timers and the window are the caller's business; the caller feeds
//! this crate plain values and performs what it answers.
pub mod text;
pub mod command;
pub mod script;
pub mod drone;
pub mod registry;
pub mod console;
