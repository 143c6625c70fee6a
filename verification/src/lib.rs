//! Building blocks for moving large messages over several byte streams at
//! once, and for sharing one such connection between worker threads.
//!
//! Everything here is pure: the chunk plan, the wire framing, the byte
//! counters and the routing decisions are functions on plain values, so that
//! the code which owns sockets, threads and tasks only has to carry bytes.

pub mod counting;
pub mod frame;
pub mod imux;
pub mod plan;
pub mod threaded;
