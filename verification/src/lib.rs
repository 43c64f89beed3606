//! Verified core of a UDP ping-pong latency monitor: the wire format of the
//! address echo, the bounded history of ping samples, and the aggregation of
//! that history into the figures a dashboard shows.

pub mod calendar;
pub mod clock;
pub mod properties;
pub mod session;
pub mod stats;
pub mod text;
pub mod wire;
