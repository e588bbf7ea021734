use vstd::prelude::*;

verus! {

/// Largest UDP datagram the client ever sends or expects to receive.
pub const MAX_DATAGRAM_SIZE: usize = 1472;

/// Number of bytes a packet header occupies on the wire.
pub const HEADER_SIZE: usize = 17;

/// Largest slice of file data that fits in one datagram beside the header.
pub const MAX_PACKET_DATA_SIZE: usize = 1472 - 17;

/// Default transmission quota in bytes per second (10 MiB/s).
pub const DEFAULT_SPEED_LIMIT: u64 = 10 * 1048576;

} // verus!
