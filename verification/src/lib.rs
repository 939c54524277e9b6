//! The push-notification engine of a service-registry server: UDP clients
//! subscribe to a named service's instance list and receive compressed,
//! filtered snapshots on every change and on a periodic heartbeat, while
//! subscribers that stop acknowledging are evicted.  The registry, the
//! fan-out groups, the timer schedule and the wire-payload construction
//! are verified; transport, persistence and the clock stay outside.

pub mod addr;
pub mod config;
pub mod listener;
pub mod message;
pub mod naming;
pub mod search;
pub mod strutil;
pub mod timer;
