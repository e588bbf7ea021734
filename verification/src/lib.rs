//! Client-side core of a reliable bulk-file transfer protocol over UDP.
//!
//! The library covers the wire packet codec, the chunking of a file's bytes
//! into datagram-sized PUT packets, the per-file CRC32 bookkeeping, the
//! per-packet retransmission state machine, and the session state that a
//! thin asynchronous shell drives against a real socket and rate limiter.

pub mod consts;
pub mod packet;
pub mod packets_view;
pub mod sender;


