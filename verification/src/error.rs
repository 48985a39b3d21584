use vstd::prelude::*;

verus! {

/// Coarse class of a failure, as it is reported to the log.
#[derive(Clone, Copy, Debug, PartialEq, Eq, Structural)]
pub enum ErrorKind {
    InvalidData,
    UnexpectedEof,
    NotFound,
    TimedOut,
    Other,
}

/// Every way in which decoding, framing, routing or admission can fail.
#[derive(Clone, Copy, Debug, PartialEq, Eq, Structural)]
pub enum ProxyError {
    /// The input ended inside a variable-length integer.
    VarIntTruncated,
    /// A variable-length integer would need a sixth byte.
    VarIntTooBig,
    /// A string declared a negative byte length.
    NegativeLength,
    /// A string declared more than `MAX_STRING_LEN` bytes.
    StringTooLarge,
    /// The input ended inside the bytes of a string.
    StringTruncated,
    /// The bytes of a string are not UTF-8.
    InvalidUtf8,
    /// The length prefix of the first packet would need a sixth byte.
    LengthPrefixTooBig,
    /// The stream ended before the first packet was complete.
    StreamClosed,
    /// The first packet declared a body of more than `MAX_PACKET_LEN` bytes.
    PacketTooLarge,
    /// The first packet did not arrive in time.
    HandshakeTimeout,
    /// The first packet holds no byte at all.
    EmptyPacket,
    /// The first packet is no handshake, or its address cannot be read.
    ServerNameMissing,
    /// The address of the handshake starts with an empty label.
    InvalidServerName,
    /// No route is registered under the route key.
    UnknownServer,
    /// The admission bucket refused the first packet.
    RateLimited,
}

impl ProxyError {
    /// The class under which each failure is reported.
    pub open spec fn kind_of(self) -> ErrorKind {
        match self {
            ProxyError::VarIntTruncated => ErrorKind::UnexpectedEof,
            ProxyError::VarIntTooBig => ErrorKind::InvalidData,
            ProxyError::NegativeLength => ErrorKind::InvalidData,
            ProxyError::StringTooLarge => ErrorKind::InvalidData,
            ProxyError::StringTruncated => ErrorKind::UnexpectedEof,
            ProxyError::InvalidUtf8 => ErrorKind::InvalidData,
            ProxyError::LengthPrefixTooBig => ErrorKind::InvalidData,
            ProxyError::StreamClosed => ErrorKind::UnexpectedEof,
            ProxyError::PacketTooLarge => ErrorKind::InvalidData,
            ProxyError::HandshakeTimeout => ErrorKind::TimedOut,
            ProxyError::EmptyPacket => ErrorKind::InvalidData,
            ProxyError::ServerNameMissing => ErrorKind::InvalidData,
            ProxyError::InvalidServerName => ErrorKind::InvalidData,
            ProxyError::UnknownServer => ErrorKind::NotFound,
            ProxyError::RateLimited => ErrorKind::Other,
        }
    }

    /// The class of the failure.
    pub fn kind(&self) -> (k: ErrorKind)
        ensures
            k == self.kind_of(),
    {
        match self {
            ProxyError::VarIntTruncated => ErrorKind::UnexpectedEof,
            ProxyError::VarIntTooBig => ErrorKind::InvalidData,
            ProxyError::NegativeLength => ErrorKind::InvalidData,
            ProxyError::StringTooLarge => ErrorKind::InvalidData,
            ProxyError::StringTruncated => ErrorKind::UnexpectedEof,
            ProxyError::InvalidUtf8 => ErrorKind::InvalidData,
            ProxyError::LengthPrefixTooBig => ErrorKind::InvalidData,
            ProxyError::StreamClosed => ErrorKind::UnexpectedEof,
            ProxyError::PacketTooLarge => ErrorKind::InvalidData,
            ProxyError::HandshakeTimeout => ErrorKind::TimedOut,
            ProxyError::EmptyPacket => ErrorKind::InvalidData,
            ProxyError::ServerNameMissing => ErrorKind::InvalidData,
            ProxyError::InvalidServerName => ErrorKind::InvalidData,
            ProxyError::UnknownServer => ErrorKind::NotFound,
            ProxyError::RateLimited => ErrorKind::Other,
        }
    }

    /// The text written to the log for each failure.
    pub open spec fn message_of(self) -> Seq<char> {
        match self {
            ProxyError::VarIntTruncated => "unexpected eof reading varint"@,
            ProxyError::VarIntTooBig => "varint too big"@,
            ProxyError::NegativeLength => "negative length"@,
            ProxyError::StringTooLarge => "string too large"@,
            ProxyError::StringTruncated => "unexpected eof reading string"@,
            ProxyError::InvalidUtf8 => "invalid utf8"@,
            ProxyError::LengthPrefixTooBig => "length varint too big"@,
            ProxyError::StreamClosed => "stream closed"@,
            ProxyError::PacketTooLarge => "packet too large"@,
            ProxyError::HandshakeTimeout => "handshake timeout"@,
            ProxyError::EmptyPacket => "empty packet"@,
            ProxyError::ServerNameMissing => "server name missing"@,
            ProxyError::InvalidServerName => "invalid server name"@,
            ProxyError::UnknownServer => "unknown server"@,
            ProxyError::RateLimited => "rate limit exceeded"@,
        }
    }

    /// The text for the log.
    pub fn message(&self) -> (text: &'static str)
        ensures
            text@ == self.message_of(),
    {
        match self {
            ProxyError::VarIntTruncated => "unexpected eof reading varint",
            ProxyError::VarIntTooBig => "varint too big",
            ProxyError::NegativeLength => "negative length",
            ProxyError::StringTooLarge => "string too large",
            ProxyError::StringTruncated => "unexpected eof reading string",
            ProxyError::InvalidUtf8 => "invalid utf8",
            ProxyError::LengthPrefixTooBig => "length varint too big",
            ProxyError::StreamClosed => "stream closed",
            ProxyError::PacketTooLarge => "packet too large",
            ProxyError::HandshakeTimeout => "handshake timeout",
            ProxyError::EmptyPacket => "empty packet",
            ProxyError::ServerNameMissing => "server name missing",
            ProxyError::InvalidServerName => "invalid server name",
            ProxyError::UnknownServer => "unknown server",
            ProxyError::RateLimited => "rate limit exceeded",
        }
    }
}

} // verus!
