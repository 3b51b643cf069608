//! Core library for a terminal messaging client driven by an external
//! command-line tool speaking a JSON protocol.
//!
//! The library holds the verified logic: the protocol adapter that turns
//! raw tool output into normalized incoming messages, the scrollback
//! store's line format (serialization and tolerant parsing), the
//! conversation registry and unread-count state machine, and recipient
//! validation.  Process spawning, terminal rendering and file I/O live in
//! the surrounding application, which hands this library plain values.
use vstd::prelude::*;

pub mod config;
pub mod json;
pub mod scrollback;
pub mod session;
pub mod signal_cli;
pub mod text;

verus! {

} // verus!
