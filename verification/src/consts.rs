use vstd::prelude::*;

verus! {

/// Largest body, in bytes, that the first packet of a connection may declare.
pub const MAX_PACKET_LEN: usize = 256 * 1024;

/// Largest byte length of a length-prefixed string.
pub const MAX_STRING_LEN: usize = 32 * 1024;

/// Seconds a connection is given to deliver its first packet.
pub const HANDSHAKE_READ_TIMEOUT_SECS: u64 = 5;

/// Sustained rate of the per-connection admission bucket, in bytes per second.
pub const DEFAULT_BYTES_PER_SEC: usize = 64 * 1024;

/// Burst size of the per-connection admission bucket, in bytes.
pub const DEFAULT_BURST_BYTES: usize = 128 * 1024;

/// Largest number of body bytes asked of the stream in one read.
pub const BODY_CHUNK_LEN: usize = 8 * 1024;

/// Bytes a length prefix may occupy.
pub const MAX_PREFIX_LEN: usize = 5;

/// Seconds a client stays in the pending set while no upstream reply arrives.
pub const PENDING_TTL_SECS: u64 = 10;

} // verus!
