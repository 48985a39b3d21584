pub mod rate_limiter;
pub mod router;
pub mod tcp_proxy;
pub mod udp_proxy;
pub mod varint;

pub use rate_limiter::RateLimiter;
pub use router::Router;
pub use tcp_proxy::TcpProxy;
pub use udp_proxy::UdpProxy;
pub use varint::{read_varint_string_from_slice, VarInt};
