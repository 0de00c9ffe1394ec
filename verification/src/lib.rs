//! Verified core of an industrial telemetry gateway.
//!
//! The library models the ingestion engine of a TCP gateway for PLC
//! telemetry: a strict big-endian frame decoder, a per-connection
//! receive/reassembly state machine, a connection registry with stable
//! peer ids, a watchdog that reaps stalled peers, and the administrative
//! control surface (forced disconnect, blacklist, reconnect enablement).
//! All decisions are pure functions of plain values; sockets, timers and
//! task handles live outside the library and feed it events.

pub mod client;
pub mod clock;
pub mod conn;
pub mod decimal;
pub mod frame;
pub mod laws;
pub mod realfmt;
pub mod registry;
pub mod watchdog;
