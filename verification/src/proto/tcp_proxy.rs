use crate::addr::SocketAddress;
use crate::consts::{
    BODY_CHUNK_LEN, DEFAULT_BURST_BYTES, DEFAULT_BYTES_PER_SEC, MAX_PACKET_LEN, MAX_PREFIX_LEN,
    MAX_STRING_LEN,
};
use crate::error::ProxyError;
use crate::proto::rate_limiter::{RateLimiter, PARTS_PER_TOKEN};
use crate::proto::router::{Route, Router};
use crate::text::{first_label, first_label_of};
use crate::proto::varint::{
    continuation_run, decode_string, decode_varint, encode_string, encode_varint,
    lemma_decode_extends, lemma_decode_used, lemma_signed_round_trip, lemma_string_round_trip,
    read_varint_string_from_slice, unsigned32, VarInt,
};
use bytes::BytesMut;
use vstd::prelude::*;
use vstd::slice::slice_subrange;
use vstd::string::StrSliceExecFns;
use vstd::utf8::encode_utf8;

verus! {

/// `bytes::BytesMut`: a growable byte buffer, known by the bytes it holds.
#[verifier::external_type_specification]
#[verifier::external_body]
pub struct ExBytesMut(BytesMut);

/// The bytes that a buffer holds, first to last.
pub uninterp spec fn buffered(buf: BytesMut) -> Seq<u8>;

/// `BytesMut::with_capacity`: a buffer that holds no byte.
#[verifier::external_body]
fn buffer_with_capacity(capacity: usize) -> (buf: BytesMut)
    requires
        capacity <= 0x7fff_ffff,
    ensures
        buffered(buf) == Seq::<u8>::empty(),
{
    BytesMut::with_capacity(capacity)
}

/// `BytesMut::extend_from_slice`: the buffer holds what it held, then the
/// bytes of `data`.
#[verifier::external_body]
fn buffer_extend(buf: &mut BytesMut, data: &[u8])
    requires
        buffered(*old(buf)).len() + data@.len() <= 0x7fff_ffff,
    ensures
        buffered(*final(buf)) == buffered(*old(buf)) + data@,
{
    buf.extend_from_slice(data)
}

/// The slice that a `BytesMut` dereferences to: the bytes that it holds.
#[verifier::external_body]
fn buffer_bytes(buf: &BytesMut) -> (bytes: &[u8])
    ensures
        bytes@ == buffered(*buf),
{
    &buf[..]
}

fn append_bytes(v: &mut Vec<u8>, data: &[u8])
    ensures
        final(v)@ == old(v)@ + data@,
{
    let mut i: usize = 0;
    while i < data.len()
        invariant
            i <= data@.len(),
            v@ == old(v)@ + data@.take(i as int),
        decreases data@.len() - i,
    {
        v.push(data[i]);
        proof {
            assert(data@.take(i + 1) =~= data@.take(i as int).push(data@[i as int]));
            assert(v@ =~= old(v)@ + data@.take(i + 1));
        }
        i = i + 1;
    }
    proof {
        assert(data@.take(i as int) =~= data@);
    }
}

/// How far the first packet has come.
#[derive(Clone, Copy, Debug, PartialEq, Eq, Structural)]
pub enum Progress {
    /// More bytes are due: at least one and at most this many are to be read
    /// next.
    NeedBytes(usize),
    /// The length prefix and the body that it declares are there.
    Complete,
}

/// Where the first packet stands once `received` has come in: what is to be
/// read next, that it is complete, or why it is refused. The answer depends
/// on the bytes alone, not on the pieces in which they came.
pub open spec fn framing(received: Seq<u8>) -> Result<Progress, ProxyError> {
    match decode_varint(received) {
        Err(ProxyError::VarIntTruncated) => Ok(
            Progress::NeedBytes((MAX_PREFIX_LEN - received.len()) as usize),
        ),
        Err(_) => Err(ProxyError::LengthPrefixTooBig),
        Ok((length, used)) => {
            let have = received.len() - used;
            if length < 0 || length > MAX_PACKET_LEN {
                Err(ProxyError::PacketTooLarge)
            } else if have >= length {
                Ok(Progress::Complete)
            } else if length - have <= BODY_CHUNK_LEN {
                Ok(Progress::NeedBytes((length - have) as usize))
            } else {
                Ok(Progress::NeedBytes(BODY_CHUNK_LEN))
            }
        },
    }
}

/// The address that the handshake in `body` asks for: `body` is a handshake
/// where it starts with the packet id 0, and then holds a protocol version
/// and the address as a length-prefixed string.
pub open spec fn server_name_of(body: Seq<u8>) -> Option<Seq<char>> {
    match decode_varint(body) {
        Ok((id, used)) if id == 0 => match decode_varint(body.skip(used as int)) {
            Ok((_, more)) => match decode_string(body.skip(used as int).skip(more as int)) {
                Ok((text, _)) => Some(text),
                Err(_) => None,
            },
            Err(_) => None,
        },
        _ => None,
    }
}

/// The route that a first packet with the address `server_name` is for, or
/// why it has none.
pub open spec fn resolution(
    routes: Map<Seq<char>, Route>,
    packet: Seq<u8>,
    server_name: Option<Seq<char>>,
) -> Result<Route, ProxyError> {
    if packet.len() == 0 {
        Err(ProxyError::EmptyPacket)
    } else {
        match server_name {
            None => Err(ProxyError::ServerNameMissing),
            Some(name) => {
                let key = first_label_of(name);
                if key.len() == 0 {
                    Err(ProxyError::InvalidServerName)
                } else if !routes.contains_key(key) {
                    Err(ProxyError::UnknownServer)
                } else {
                    Ok(routes[key])
                }
            },
        }
    }
}

/// A first packet of a declared body length over `MAX_PACKET_LEN` is
/// refused as soon as its length prefix is there, whatever follows: no
/// byte of its body is asked for, and none is handed on.
pub proof fn lemma_oversize_rejected(received: Seq<u8>, more: Seq<u8>)
    requires
        decode_varint(received) matches Ok((length, _)) && (length < 0 || length > MAX_PACKET_LEN),
    ensures
        framing(received) == Err::<Progress, ProxyError>(ProxyError::PacketTooLarge),
        framing(received + more) == Err::<Progress, ProxyError>(ProxyError::PacketTooLarge),
{
    lemma_decode_extends(received, more);
}

/// However a first packet is cut into pieces, it is read whole and no
/// further: while only a part of `prefix + body` has come in, at least one
/// more byte is asked for, and never more than the packet still lacks; once
/// all of it is there the packet is complete. Here `prefix` is the length
/// prefix for the length of `body`. A packet of less than five bytes is read
/// no further only if the sender sends nothing behind it: its first read asks
/// for the five bytes that a length prefix may take.
pub proof fn lemma_framing_exact(prefix: Seq<u8>, body: Seq<u8>, k: int)
    requires
        body.len() <= MAX_PACKET_LEN,
        decode_varint(prefix) == Ok::<(i32, nat), ProxyError>((body.len() as i32, prefix.len())),
        0 <= k <= prefix.len() + body.len(),
    ensures
        k == prefix.len() + body.len() ==> framing((prefix + body).take(k)) == Ok::<
            Progress,
            ProxyError,
        >(Progress::Complete),
        k < prefix.len() + body.len() ==> (framing((prefix + body).take(k)) matches Ok(
            Progress::NeedBytes(n),
        ) && 1 <= n && (n <= prefix.len() + body.len() - k || (k < prefix.len() && prefix.len()
            + body.len() < MAX_PREFIX_LEN))),
{
    let all = prefix + body;
    let part = all.take(k);
    lemma_decode_used(prefix);
    if k >= prefix.len() {
        assert(part =~= prefix + body.take(k - prefix.len()));
        lemma_decode_extends(prefix, body.take(k - prefix.len()));
    } else {
        // Only continuation bytes came in so far.
        let run = continuation_run(prefix);
        assert(run + 1 == prefix.len());
        assert(part =~= prefix.take(k));
        lemma_prefix_part_truncated(prefix, k);
    }
}

/// The reads `cuts` of `stream` are reads that the reader asks for: the
/// first starts at the first byte, each takes at least one byte and at most
/// as many as are asked for after the bytes before it, and each starts where
/// the one before it ended.
pub open spec fn reads_as_asked(stream: Seq<u8>, cuts: Seq<int>) -> bool {
    &&& cuts.len() >= 1
    &&& cuts[0] == 0
    &&& forall|i: int|
        0 <= i < cuts.len() - 1 ==> cuts[i] < #[trigger] cuts[i + 1] <= stream.len() && (framing(
            stream.take(cuts[i]),
        ) matches Ok(Progress::NeedBytes(n)) && cuts[i + 1] - cuts[i] <= n)
}

/// In whatever pieces the sender's bytes arrive, the reader takes the first
/// packet and nothing behind it: no read that it asks for ends behind the
/// packet, it goes on asking until the packet is there, and then the packet
/// is complete. The packet is `prefix + body`, `rest` is what the sender
/// sends behind it; a packet of less than five bytes must have nothing
/// behind it.
pub proof fn lemma_any_fragmentation(
    prefix: Seq<u8>,
    body: Seq<u8>,
    rest: Seq<u8>,
    cuts: Seq<int>,
    i: int,
)
    requires
        body.len() <= MAX_PACKET_LEN,
        decode_varint(prefix) == Ok::<(i32, nat), ProxyError>((body.len() as i32, prefix.len())),
        prefix.len() + body.len() >= MAX_PREFIX_LEN || rest.len() == 0,
        reads_as_asked(prefix + body + rest, cuts),
        0 <= i < cuts.len(),
    ensures
        0 <= cuts[i] <= prefix.len() + body.len(),
        (prefix + body + rest).take(cuts[i]) == (prefix + body).take(cuts[i]),
        cuts[i] < prefix.len() + body.len() ==> framing((prefix + body + rest).take(cuts[i])) is Ok
            && framing((prefix + body + rest).take(cuts[i])) != Ok::<Progress, ProxyError>(
            Progress::Complete,
        ),
        cuts[i] == prefix.len() + body.len() ==> (prefix + body + rest).take(cuts[i]) == prefix
            + body && framing(prefix + body) == Ok::<Progress, ProxyError>(Progress::Complete),
    decreases i,
{
    let frame = prefix + body;
    let stream = frame + rest;
    if i > 0 {
        lemma_any_fragmentation(prefix, body, rest, cuts, i - 1);
        let at = cuts[i - 1];
        assert(cuts[i - 1 + 1] == cuts[i]);
        assert(at < cuts[i]);
        if at == frame.len() {
            // A complete packet asks for no further read.
            assert(stream.take(at) == frame);
            assert(frame.take(at) =~= frame);
            lemma_framing_exact(prefix, body, at);
        } else {
            lemma_framing_exact(prefix, body, at);
        }
    }
    assert(stream.take(cuts[i]) =~= frame.take(cuts[i]));
    lemma_framing_exact(prefix, body, cuts[i]);
    assert(frame.take(frame.len() as int) =~= frame);
}

proof fn lemma_prefix_part_truncated(s: Seq<u8>, k: int)
    requires
        0 <= k <= continuation_run(s),
        k < 5,
        k <= s.len(),
    ensures
        continuation_run(s.take(k)) == k,
        decode_varint(s.take(k)) == Err::<(i32, nat), ProxyError>(ProxyError::VarIntTruncated),
    decreases k,
{
    if k == 0 {
        assert(s.take(0) =~= Seq::<u8>::empty());
    } else {
        let t = s.drop_first();
        assert(s[0] >= 128);
        assert(s.take(k)[0] == s[0]);
        assert(s.take(k).drop_first() =~= t.take(k - 1));
        lemma_prefix_part_truncated(t, k - 1);
    }
}

/// Reads the address of a handshake out of the body of a first packet.
pub fn read_server_name(body: &[u8]) -> (name: Option<String>)
    ensures
        match server_name_of(body@) {
            Some(text) => name is Some && name->Some_0@ == text,
            None => name is None,
        },
{
    let mut cursor: &[u8] = body;
    match VarInt::read_from_slice(&mut cursor) {
        Ok(id) => {
            if id != 0 {
                return None;
            }
        },
        Err(_) => {
            return None;
        },
    }
    match VarInt::read_from_slice(&mut cursor) {
        Ok(_) => {},
        Err(_) => {
            return None;
        },
    }
    match read_varint_string_from_slice(&mut cursor) {
        Ok(text) => Some(text),
        Err(_) => None,
    }
}

/// Finds the route of a first packet: the route under the first label of
/// the address that its handshake asks for.
pub fn resolve_route(router: &Router, packet: &[u8], server_name: &Option<String>) -> (r: Result<
    Route,
    ProxyError,
>)
    requires
        router.wf(),
    ensures
        r == resolution(
            router.routes(),
            packet@,
            match *server_name {
                Some(name) => Some(name@),
                None => None,
            },
        ),
{
    if packet.len() == 0 {
        return Err(ProxyError::EmptyPacket);
    }
    let name: &String = match server_name {
        Some(name) => name,
        None => {
            return Err(ProxyError::ServerNameMissing);
        },
    };
    let key = first_label(name.as_str());
    if key.as_str().unicode_len() == 0 {
        return Err(ProxyError::InvalidServerName);
    }
    match router.lookup_route(key.as_str()) {
        Some(route) => Ok(route),
        None => Err(ProxyError::UnknownServer),
    }
}

/// The bytes of a first packet behind its length prefix; none where the
/// prefix cannot be read.
pub open spec fn body_of(received: Seq<u8>) -> Seq<u8> {
    match decode_varint(received) {
        Ok((_, used)) => received.skip(used as int),
        Err(_) => Seq::empty(),
    }
}

/// The body of a handshake for `address`: the packet id 0, the protocol
/// version, and the address as a length-prefixed string.
pub open spec fn handshake_body(version: i32, address: Seq<char>) -> Seq<u8> {
    encode_varint(0) + encode_varint(
        unsigned32(version),
    ) + encode_string(address)
}

/// The address of a handshake is read back from its body, whatever follows
/// it there.
pub proof fn lemma_handshake_name(version: i32, address: Seq<char>, tail: Seq<u8>)
    requires
        encode_utf8(address).len() <= MAX_STRING_LEN,
    ensures
        server_name_of(handshake_body(version, address) + tail) == Some(address),
{
    let id = encode_varint(0);
    let ver = encode_varint(unsigned32(version));
    let text = encode_string(address);
    let body = handshake_body(version, address) + tail;
    lemma_signed_round_trip(0, ver + text + tail);
    lemma_signed_round_trip(version, text + tail);
    lemma_string_round_trip(address, tail);
    assert(body =~= id + (ver + text + tail));
    assert(body.skip(id.len() as int) =~= ver + (text + tail));
    assert(ver + text + tail =~= ver + (text + tail));
    assert(body.skip(id.len() as int).skip(ver.len() as int) =~= text + tail);
}

/// The exact mapping that a TCP worker keeps for its client while it lives.
pub struct UdpMappingGuard {
    client: Option<SocketAddress>,
}

impl UdpMappingGuard {
    /// The client whose mapping the guard still holds.
    pub closed spec fn held(&self) -> Option<SocketAddress> {
        self.client
    }

    /// A guard that holds nothing.
    pub fn idle() -> (g: UdpMappingGuard)
        ensures
            g.held() is None,
    {
        UdpMappingGuard { client: None }
    }

    /// Maps `client` to `upstream` and holds the mapping.
    pub fn new(router: &mut Router, client: SocketAddress, upstream: SocketAddress) -> (g:
        UdpMappingGuard)
        requires
            old(router).wf(),
        ensures
            final(router).wf(),
            g.held() == Some(client),
            final(router).exact() == old(router).exact().insert(client, upstream),
            final(router).same_routes(old(router)),
            final(router).same_hints(old(router)),
            final(router).same_pending(old(router)),
    {
        router.register_udp_mapping(client, upstream);
        UdpMappingGuard { client: Some(client) }
    }

    /// Gives the mapping up: the client that the guard held has no exact
    /// mapping any more. A guard that holds nothing changes nothing.
    pub fn release(&mut self, router: &mut Router)
        requires
            old(router).wf(),
        ensures
            final(router).wf(),
            final(self).held() is None,
            final(router).exact() == match old(self).held() {
                Some(client) => old(router).exact().remove(client),
                None => old(router).exact(),
            },
            old(self).held() matches Some(client) ==> !final(router).exact().contains_key(client),
            final(router).same_routes(old(router)),
            final(router).same_hints(old(router)),
            final(router).same_pending(old(router)),
    {
        match self.client {
            Some(client) => {
                router.unregister_udp_mapping(&client);
                self.client = None;
            },
            None => {},
        }
    }
}

/// What a worker needs to go on once its first packet is admitted.
pub struct Admission {
    /// The TCP endpoint to connect to.
    pub upstream_tcp: SocketAddress,
    /// The UDP endpoint that belongs to it.
    pub upstream_udp: SocketAddress,
    /// The bytes to write to the upstream before anything else: the first
    /// packet as it was received.
    pub first_packet: Vec<u8>,
}

#[derive(Clone, Copy, Debug, PartialEq, Eq, Structural)]
enum Stage {
    Prefix,
    Body,
    Complete,
    Admitted,
    Closed,
}

/// The decisions of one TCP worker, from the first byte of its client to
/// the end of the connection. It owns no socket: whoever runs it reads what
/// it asks for, hands it the bytes, and connects where it says.
pub struct TcpProxy {
    client: Option<SocketAddress>,
    rl: RateLimiter,
    len_prefix: BytesMut,
    prefix_len: usize,
    length: usize,
    body: Vec<u8>,
    stage: Stage,
    guard: UdpMappingGuard,
}

impl TcpProxy {
    /// All bytes that came in so far, in the order in which they came.
    pub closed spec fn received(&self) -> Seq<u8> {
        buffered(self.len_prefix).take(self.prefix_len as int) + self.body@
    }

    /// The peer address of the client, where it is known.
    pub closed spec fn client_of(&self) -> Option<SocketAddress> {
        self.client
    }

    /// The admission bucket of this connection.
    pub closed spec fn limiter(&self) -> RateLimiter {
        self.rl
    }

    /// The client whose exact mapping this worker holds: none before the
    /// first packet is admitted.
    pub closed spec fn guarded(&self) -> Option<SocketAddress> {
        self.guard.held()
    }

    /// The first packet is not complete yet, and was not refused.
    pub closed spec fn reading(&self) -> bool {
        self.stage == Stage::Prefix || self.stage == Stage::Body
    }

    /// The first packet is complete.
    pub closed spec fn complete(&self) -> bool {
        self.stage == Stage::Complete
    }

    /// The most bytes that may be handed over next; none once the first
    /// packet is complete or refused.
    pub open spec fn wanted(&self) -> nat {
        if self.reading() {
            match framing(self.received()) {
                Ok(Progress::NeedBytes(n)) => n as nat,
                _ => 0,
            }
        } else {
            0
        }
    }

    /// The bucket is sound, and what is noted of the first packet is what
    /// the received bytes say.
    pub closed spec fn wf(&self) -> bool {
        &&& self.rl.wf()
        &&& self.prefix_len <= buffered(self.len_prefix).len() <= MAX_PREFIX_LEN
        &&& (self.stage != Stage::Admitted ==> self.guard.held() is None)
        &&& match self.stage {
            Stage::Prefix => {
                &&& self.prefix_len == buffered(self.len_prefix).len()
                &&& self.body@.len() == 0
                &&& decode_varint(self.received()) == Err::<(i32, nat), ProxyError>(
                    ProxyError::VarIntTruncated,
                )
            },
            Stage::Body => {
                &&& decode_varint(self.received()) == Ok::<(i32, nat), ProxyError>(
                    (self.length as i32, self.prefix_len as nat),
                )
                &&& self.length <= MAX_PACKET_LEN
                &&& self.body@.len() < self.length
            },
            Stage::Complete => {
                &&& decode_varint(self.received()) == Ok::<(i32, nat), ProxyError>(
                    (self.length as i32, self.prefix_len as nat),
                )
                &&& self.length <= MAX_PACKET_LEN
                &&& self.body@.len() >= self.length
            },
            Stage::Admitted => true,
            Stage::Closed => true,
        }
    }

    /// While the first packet is read, the state agrees with what the bytes
    /// say; once it is complete, they say so.
    pub proof fn lemma_stage(&self)
        requires
            self.wf(),
        ensures
            self.reading() ==> (framing(self.received()) matches Ok(Progress::NeedBytes(n)) && n
                >= 1),
            self.complete() ==> framing(self.received()) == Ok::<Progress, ProxyError>(
                Progress::Complete,
            ),
            self.complete() ==> self.received().len() >= 1,
    {
        lemma_decode_used(self.received());
    }

    /// A worker for a connection whose peer address is `client`, with a full
    /// admission bucket of the default size, before its first read.
    pub fn new(client: Option<SocketAddress>) -> (p: TcpProxy)
        ensures
            p.wf(),
            p.reading(),
            p.received() == Seq::<u8>::empty(),
            p.wanted() == MAX_PREFIX_LEN,
            p.client_of() == client,
            p.limiter().capacity_of() == DEFAULT_BURST_BYTES,
            p.limiter().rate_of() == DEFAULT_BYTES_PER_SEC,
            p.limiter().level() == DEFAULT_BURST_BYTES * PARTS_PER_TOKEN as nat,
    {
        let p = TcpProxy {
            client,
            rl: RateLimiter::new(DEFAULT_BYTES_PER_SEC, DEFAULT_BURST_BYTES),
            len_prefix: buffer_with_capacity(MAX_PREFIX_LEN),
            prefix_len: 0,
            length: 0,
            body: Vec::new(),
            stage: Stage::Prefix,
            guard: UdpMappingGuard::idle(),
        };
        proof {
            assert(p.received() =~= Seq::<u8>::empty());
        }
        p
    }

    /// Takes the bytes of one read. A read of no byte stands for the end of
    /// the stream.
    pub fn feed(&mut self, chunk: &[u8]) -> (r: Result<Progress, ProxyError>)
        requires
            old(self).wf(),
            old(self).reading(),
            chunk@.len() <= old(self).wanted(),
        ensures
            final(self).wf(),
            final(self).client_of() == old(self).client_of(),
            final(self).limiter().same_fill(&old(self).limiter()),
            final(self).guarded() == old(self).guarded(),
            chunk@.len() == 0 ==> r == Err::<Progress, ProxyError>(ProxyError::StreamClosed),
            chunk@.len() > 0 ==> final(self).received() == old(self).received() + chunk@ && r
                == framing(final(self).received()),
            final(self).reading() <==> r is Ok && r != Ok::<Progress, ProxyError>(
                Progress::Complete,
            ),
            final(self).complete() <==> r == Ok::<Progress, ProxyError>(Progress::Complete),
    {
        let ghost before = self.received();
        proof {
            self.lemma_stage();
        }
        if chunk.len() == 0 {
            self.stage = Stage::Closed;
            return Err(ProxyError::StreamClosed);
        }
        match self.stage {
            Stage::Prefix => {
                let ghost held = buffered(self.len_prefix);
                proof {
                    assert(before =~= held);
                }
                buffer_extend(&mut self.len_prefix, chunk);
                let bytes: &[u8] = buffer_bytes(&self.len_prefix);
                let mut cursor: &[u8] = bytes;
                proof {
                    lemma_decode_used(bytes@);
                }
                match VarInt::read_from_slice(&mut cursor) {
                    Err(ProxyError::VarIntTruncated) => {
                        self.prefix_len = bytes.len();
                        proof {
                            assert(self.received() =~= before + chunk@);
                        }
                        Ok(Progress::NeedBytes(MAX_PREFIX_LEN - bytes.len()))
                    },
                    Err(_) => {
                        self.prefix_len = bytes.len();
                        self.stage = Stage::Closed;
                        proof {
                            assert(self.received() =~= before + chunk@);
                        }
                        Err(ProxyError::LengthPrefixTooBig)
                    },
                    Ok(declared) => {
                        let used: usize = bytes.len() - cursor.len();
                        self.prefix_len = used;
                        append_bytes(&mut self.body, cursor);
                        proof {
                            assert(self.received() =~= before + chunk@);
                        }
                        if declared < 0 || declared as usize > MAX_PACKET_LEN {
                            self.stage = Stage::Closed;
                            return Err(ProxyError::PacketTooLarge);
                        }
                        self.length = declared as usize;
                        self.progress()
                    },
                }
            },
            _ => {
                append_bytes(&mut self.body, chunk);
                proof {
                    assert(self.received() =~= before + chunk@);
                    lemma_decode_extends(before, chunk@);
                }
                self.progress()
            },
        }
    }

    fn progress(&mut self) -> (r: Result<Progress, ProxyError>)
        requires
            old(self).rl.wf(),
            old(self).guard.held() is None,
            old(self).prefix_len <= buffered(old(self).len_prefix).len() <= MAX_PREFIX_LEN,
            decode_varint(old(self).received()) == Ok::<(i32, nat), ProxyError>(
                (old(self).length as i32, old(self).prefix_len as nat),
            ),
            old(self).length <= MAX_PACKET_LEN,
        ensures
            final(self).wf(),
            final(self).received() == old(self).received(),
            final(self).client_of() == old(self).client_of(),
            final(self).limiter().same_fill(&old(self).limiter()),
            final(self).guarded() == old(self).guarded(),
            r == framing(final(self).received()),
            r is Ok,
            final(self).reading() <==> r != Ok::<Progress, ProxyError>(Progress::Complete),
            final(self).complete() <==> r == Ok::<Progress, ProxyError>(Progress::Complete),
    {
        let have: usize = self.body.len();
        if have >= self.length {
            self.stage = Stage::Complete;
            Ok(Progress::Complete)
        } else {
            self.stage = Stage::Body;
            let lacking: usize = self.length - have;
            if lacking <= BODY_CHUNK_LEN {
                Ok(Progress::NeedBytes(lacking))
            } else {
                Ok(Progress::NeedBytes(BODY_CHUNK_LEN))
            }
        }
    }

    /// The first packet as it came in: the length prefix and all that
    /// followed it.
    pub fn packet(&self) -> (bytes: Vec<u8>)
        requires
            self.wf(),
        ensures
            bytes@ == self.received(),
    {
        let mut bytes: Vec<u8> = Vec::new();
        let held: &[u8] = buffer_bytes(&self.len_prefix);
        append_bytes(&mut bytes, slice_subrange(held, 0, self.prefix_len));
        append_bytes(&mut bytes, self.body.as_slice());
        proof {
            assert(bytes@ =~= self.received());
        }
        bytes
    }

    /// The address that the handshake of the first packet asks for, where
    /// the packet is a handshake.
    pub fn server_name(&self) -> (name: Option<String>)
        requires
            self.wf(),
            self.complete(),
        ensures
            match server_name_of(body_of(self.received())) {
                Some(text) => name is Some && name->Some_0@ == text,
                None => name is None,
            },
    {
        proof {
            assert(self.received().skip(self.prefix_len as int) =~= self.body@);
        }
        read_server_name(self.body.as_slice())
    }

    /// `after`, `router_after` and `r` are what admitting the complete first
    /// packet of `before` makes of `before` and `router_before`, when
    /// `elapsed_nanos` nanoseconds have passed since the admission bucket was
    /// last asked. A packet without a route changes nothing. For a packet
    /// with a route the IP hint of a known client is noted and its exact
    /// mapping registered; then the bucket is asked for one token for each
    /// byte of the packet, and where it refuses the mapping is given up again.
    pub open spec fn admitted(
        before: &TcpProxy,
        router_before: &Router,
        elapsed_nanos: nat,
        after: &TcpProxy,
        router_after: &Router,
        r: Result<Admission, ProxyError>,
    ) -> bool {
        let packet = before.received();
        &&& after.received() == packet
        &&& after.client_of() == before.client_of()
        &&& !after.reading()
        &&& !after.complete()
        &&& router_after.same_routes(router_before)
        &&& router_after.same_pending(router_before)
        &&& match resolution(router_before.routes(), packet, server_name_of(body_of(packet))) {
            Err(e) => {
                &&& r matches Err(x) && x == e
                &&& after.limiter().same_fill(&before.limiter())
                &&& after.guarded() is None
                &&& router_after.same_exact(router_before)
                &&& router_after.same_hints(router_before)
            },
            Ok(route) => {
                &&& router_after.ip_hints() == match before.client_of() {
                    Some(c) => router_before.ip_hints().insert(c.ip_of(), route.udp.ip_of()),
                    None => router_before.ip_hints(),
                }
                &&& RateLimiter::asked(
                    &before.limiter(),
                    elapsed_nanos,
                    packet.len(),
                    &after.limiter(),
                    r is Ok,
                )
                &&& match r {
                    Ok(admission) => {
                        &&& admission.upstream_tcp == route.tcp
                        &&& admission.upstream_udp == route.udp
                        &&& admission.first_packet@ == packet
                        &&& after.guarded() == before.client_of()
                        &&& router_after.exact() == match before.client_of() {
                            Some(c) => router_before.exact().insert(c, route.udp),
                            None => router_before.exact(),
                        }
                    },
                    Err(e) => {
                        &&& e == ProxyError::RateLimited
                        &&& after.guarded() is None
                        &&& router_after.exact() == match before.client_of() {
                            Some(c) => router_before.exact().remove(c),
                            None => router_before.exact(),
                        }
                    },
                }
            },
        }
    }

    /// Admits the complete first packet, `elapsed_nanos` nanoseconds after
    /// the admission bucket was last asked.
    pub fn admit_after(&mut self, router: &mut Router, elapsed_nanos: u128) -> (r: Result<
        Admission,
        ProxyError,
    >)
        requires
            old(self).wf(),
            old(self).complete(),
            old(router).wf(),
        ensures
            final(self).wf(),
            final(router).wf(),
            TcpProxy::admitted(
                old(self),
                old(router),
                elapsed_nanos as nat,
                final(self),
                final(router),
                r,
            ),
    {
        let first_packet = self.packet();
        let name = self.server_name();
        let route = match resolve_route(router, first_packet.as_slice(), &name) {
            Ok(route) => route,
            Err(e) => {
                self.stage = Stage::Closed;
                return Err(e);
            },
        };
        match self.client {
            Some(client) => {
                router.register_udp_ip_mapping(client.ip(), route.udp.ip());
                self.guard = UdpMappingGuard::new(router, client, route.udp);
            },
            None => {},
        }
        if !self.rl.allow_after(elapsed_nanos, first_packet.len()) {
            self.guard.release(router);
            self.stage = Stage::Closed;
            proof {
                match old(self).client_of() {
                    Some(c) => {
                        assert(old(router).exact().insert(c, route.udp).remove(c) =~= old(
                            router,
                        ).exact().remove(c));
                    },
                    None => {},
                }
            }
            return Err(ProxyError::RateLimited);
        }
        self.stage = Stage::Admitted;
        Ok(Admission { upstream_tcp: route.tcp, upstream_udp: route.udp, first_packet })
    }

    /// Admits the complete first packet now. The clock decides how much the
    /// admission bucket was refilled: some number of nanoseconds has passed
    /// since it was last asked, and the outcome is the one that `admit_after`
    /// gives for it.
    pub fn admit_now(&mut self, router: &mut Router) -> (r: Result<Admission, ProxyError>)
        requires
            old(self).wf(),
            old(self).complete(),
            old(router).wf(),
        ensures
            final(self).wf(),
            final(router).wf(),
            exists|elapsed_nanos: nat| #[trigger]
                TcpProxy::admitted(
                    old(self),
                    old(router),
                    elapsed_nanos,
                    final(self),
                    final(router),
                    r,
                ),
    {
        let elapsed: u128 = self.rl.restart_clock();
        let r = self.admit_after(router, elapsed);
        proof {
            assert(TcpProxy::admitted(old(self), old(router), elapsed as nat, self, router, r));
        }
        r
    }

    /// Ends the worker: the exact mapping that it holds for its client is
    /// given up, on whatever path the connection ended.
    pub fn release(&mut self, router: &mut Router)
        requires
            old(router).wf(),
        ensures
            final(router).wf(),
            old(self).wf() ==> final(self).wf(),
            TcpProxy::released(old(self), old(router), final(self), final(router)),
    {
        self.guard.release(router);
    }

    /// `after` and `router_after` are what the end of the worker `before`
    /// makes of `router_before`.
    pub open spec fn released(
        before: &TcpProxy,
        router_before: &Router,
        after: &TcpProxy,
        router_after: &Router,
    ) -> bool {
        &&& after.guarded() is None
        &&& after.client_of() == before.client_of()
        &&& router_after.exact() == match before.guarded() {
            Some(client) => router_before.exact().remove(client),
            None => router_before.exact(),
        }
        &&& router_after.same_routes(router_before)
        &&& router_after.same_hints(router_before)
        &&& router_after.same_pending(router_before)
    }
}

/// When a worker whose first packet was admitted ends, its client has no
/// exact mapping any more, whatever became of the mappings while it ran; the
/// IP hint that it noted at admission is not touched by its end.
pub proof fn lemma_mapping_lifecycle(
    fresh: &TcpProxy,
    router_then: &Router,
    elapsed_nanos: nat,
    running: &TcpProxy,
    router_admitted: &Router,
    admission: Result<Admission, ProxyError>,
    router_at_exit: &Router,
    ended: &TcpProxy,
    router_after: &Router,
    client: SocketAddress,
)
    requires
        TcpProxy::admitted(fresh, router_then, elapsed_nanos, running, router_admitted, admission),
        admission is Ok,
        fresh.client_of() == Some(client),
        TcpProxy::released(running, router_at_exit, ended, router_after),
    ensures
        router_admitted.exact().contains_key(client),
        router_admitted.ip_hints().contains_key(client.ip_of()),
        !router_after.exact().contains_key(client),
        router_after.ip_hints() == router_at_exit.ip_hints(),
{
}

} // verus!
