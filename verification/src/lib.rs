//! Verified core of a UDP control protocol (UDCP) server: a unidirectional,
//! sliding-window file transfer over UDP with a three-way handshake.
//!
//! - `decimal`: ASCII decimal numbers, written and parsed.
//! - `frame`: data frames, acknowledgements and requests on the wire.
//! - `sender`: the sliding-window decisions of the sending side.
//! - `handshake`: the listener's decisions during the three-way handshake.
//! - `clock`, `metrics`, `stats`: events recorded during a transfer.

pub mod clock;
pub mod decimal;
pub mod frame;
pub mod handshake;
pub mod metrics;
pub mod sender;
pub mod stats;
