//! A minimal one-to-one text chat library: one side binds and listens,
//! the other connects, and both relay local input lines to the peer under
//! a `[username]: ` prefix while passing peer bytes through to local
//! output.  This crate holds the verified core — address parsing and
//! formatting, configuration resolution, line framing and the session
//! state machine; the socket and console I/O around it lives with the
//! caller.
pub mod addr;
pub mod args;
pub mod binder;
pub mod relay;

pub use addr::HostPort;
pub use args::{ClientArgs, Mode, NetchatArgs, ServerArgs};
