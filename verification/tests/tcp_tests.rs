use routeproxy::addr::{IpAddress, SocketAddress};
use routeproxy::error::{ErrorKind, ProxyError};
use routeproxy::proto::router::{Route, Router};
use routeproxy::proto::tcp_proxy::{
    read_server_name, resolve_route, Admission, Progress, TcpProxy, UdpMappingGuard,
};
use routeproxy::proto::varint::{write_varint_string_to_vec, VarInt};

const UPSTREAM_IP: IpAddress = IpAddress::V4(0x0a00_0001);
const CLIENT_IP: IpAddress = IpAddress::V4(0xc0a8_0105);

fn v4(a: u8, b: u8, c: u8, d: u8, port: u16) -> SocketAddress {
    SocketAddress::V4 { ip: u32::from_be_bytes([a, b, c, d]), port }
}

fn client() -> SocketAddress {
    v4(192, 168, 1, 5, 50000)
}

fn fractal() -> Route {
    Route { tcp: v4(10, 0, 0, 1, 25565), udp: v4(10, 0, 0, 1, 24454) }
}

fn configured() -> Router {
    let mut router = Router::new();
    router.add_route("fractal".to_string(), fractal().tcp, fractal().udp);
    router
}

fn handshake_body(address: &str) -> Vec<u8> {
    let mut body = Vec::new();
    VarInt::write_to_vec(0, &mut body);
    VarInt::write_to_vec(763, &mut body);
    assert_eq!(write_varint_string_to_vec(address, &mut body), Ok(()));
    body.extend_from_slice(&[0x63, 0xdd, 0x02]);
    body
}

fn framed(body: &[u8]) -> Vec<u8> {
    let mut packet = Vec::new();
    VarInt::write_to_vec(body.len() as i32, &mut packet);
    packet.extend_from_slice(body);
    packet
}

/// Hands `stream` to `worker` in reads of at most `piece` bytes, never more
/// than the worker asks for, and stops when the worker stops asking.
fn drive(worker: &mut TcpProxy, stream: &[u8], piece: usize) -> (Result<Progress, ProxyError>, usize) {
    let mut at = 0;
    let mut want = 5;
    loop {
        let n = want.min(piece).min(stream.len() - at);
        let r = worker.feed(&stream[at..at + n]);
        at += n;
        match r {
            Ok(Progress::NeedBytes(more)) => {
                assert!(more >= 1);
                want = more;
            },
            other => return (other, at),
        }
    }
}

fn admitted(worker: &mut TcpProxy, router: &mut Router) -> Admission {
    match worker.admit_after(router, 0) {
        Ok(admission) => admission,
        Err(e) => panic!("not admitted: {}", e.message()),
    }
}

fn refused(worker: &mut TcpProxy, router: &mut Router, elapsed_nanos: u128) -> ProxyError {
    match worker.admit_after(router, elapsed_nanos) {
        Ok(_) => panic!("admitted"),
        Err(e) => e,
    }
}

#[test]
fn tcp_first_read_asks_for_the_prefix() {
    let mut worker = TcpProxy::new(None);
    assert_eq!(worker.packet(), vec![]);
    assert_eq!(worker.feed(&[0x83]), Ok(Progress::NeedBytes(4)));
    assert_eq!(worker.feed(&[0x80]), Ok(Progress::NeedBytes(3)));
    assert_eq!(worker.packet(), vec![0x83, 0x80]);
}

#[test]
fn tcp_body_is_asked_for_in_chunks() {
    let mut worker = TcpProxy::new(None);
    assert_eq!(worker.feed(&[0xa0, 0x9c, 0x01]), Ok(Progress::NeedBytes(8192)));
    assert_eq!(worker.feed(&vec![0u8; 8192]), Ok(Progress::NeedBytes(8192)));
    assert_eq!(worker.feed(&vec![0u8; 8000]), Ok(Progress::NeedBytes(3808)));
    assert_eq!(worker.feed(&vec![0u8; 3807]), Ok(Progress::NeedBytes(1)));
    assert_eq!(worker.feed(&[7]), Ok(Progress::Complete));
    assert_eq!(worker.packet().len(), 3 + 20000);
}

#[test]
fn tcp_bytes_read_past_the_prefix_belong_to_the_body() {
    let mut worker = TcpProxy::new(None);
    assert_eq!(worker.feed(&[0x06, 1, 2, 3, 4]), Ok(Progress::NeedBytes(2)));
    assert_eq!(worker.feed(&[5, 6]), Ok(Progress::Complete));
    assert_eq!(worker.packet(), vec![0x06, 1, 2, 3, 4, 5, 6]);
}

#[test]
fn tcp_packet_of_empty_body_is_complete_at_once() {
    let mut worker = TcpProxy::new(None);
    assert_eq!(worker.feed(&[0x00]), Ok(Progress::Complete));
    assert_eq!(worker.packet(), vec![0x00]);
    assert_eq!(worker.server_name(), None);
}

#[test]
fn tcp_end_of_stream_in_the_prefix() {
    let mut worker = TcpProxy::new(None);
    let r = worker.feed(&[]);
    assert_eq!(r, Err(ProxyError::StreamClosed));
    assert_eq!(r.unwrap_err().kind(), ErrorKind::UnexpectedEof);
}

#[test]
fn tcp_end_of_stream_in_the_body() {
    let mut worker = TcpProxy::new(None);
    assert_eq!(worker.feed(&[0x05, 1]), Ok(Progress::NeedBytes(4)));
    assert_eq!(worker.feed(&[]), Err(ProxyError::StreamClosed));
}

#[test]
fn tcp_length_prefix_of_five_continuation_bytes_is_refused() {
    let mut worker = TcpProxy::new(None);
    let r = worker.feed(&[0x80, 0x80, 0x80, 0x80, 0x80]);
    assert_eq!(r, Err(ProxyError::LengthPrefixTooBig));
    assert_eq!(r.unwrap_err().kind(), ErrorKind::InvalidData);
    let mut slow = TcpProxy::new(None);
    assert_eq!(drive(&mut slow, &[0xff, 0xff, 0xff, 0xff, 0xff, 0x01], 1).0, r);
}

#[test]
fn tcp_oversize_length_prefix_is_refused() {
    let mut stream = Vec::new();
    VarInt::write_to_vec(300_000, &mut stream);
    assert_eq!(stream, vec![0xe0, 0xa7, 0x12]);
    stream.extend_from_slice(&[0u8; 64]);
    for piece in [1, 2, 3, 5] {
        let mut worker = TcpProxy::new(Some(client()));
        let (r, used) = drive(&mut worker, &stream, piece);
        assert_eq!(r, Err(ProxyError::PacketTooLarge));
        assert_eq!(r.unwrap_err().kind(), ErrorKind::InvalidData);
        assert!(used <= 5);
    }
}

#[test]
fn tcp_largest_packet_is_accepted_and_one_more_byte_is_not() {
    let mut worker = TcpProxy::new(None);
    let mut prefix = Vec::new();
    VarInt::write_to_vec(256 * 1024, &mut prefix);
    assert_eq!(worker.feed(&prefix), Ok(Progress::NeedBytes(8192)));
    let mut worker = TcpProxy::new(None);
    let mut prefix = Vec::new();
    VarInt::write_to_vec(256 * 1024 + 1, &mut prefix);
    assert_eq!(worker.feed(&prefix), Err(ProxyError::PacketTooLarge));
}

#[test]
fn tcp_negative_length_prefix_is_refused() {
    let mut worker = TcpProxy::new(None);
    assert_eq!(worker.feed(&[0xff, 0xff, 0xff, 0xff, 0x0f]), Err(ProxyError::PacketTooLarge));
}

#[test]
fn tcp_framing_does_not_depend_on_fragmentation() {
    let body = handshake_body("fractal.example.com");
    let packet = framed(&body);
    let mut stream = packet.clone();
    stream.extend_from_slice(&[0x02, 0x00, 0x00, 0x09, 0x09]);
    for piece in [1, 2, 3, 4, 5, 7, 16, 8192] {
        let mut worker = TcpProxy::new(Some(client()));
        let (r, used) = drive(&mut worker, &stream, piece);
        assert_eq!(r, Ok(Progress::Complete));
        assert_eq!(used, packet.len());
        assert_eq!(worker.packet(), packet);
        assert_eq!(worker.server_name(), Some("fractal.example.com".to_string()));
    }
}

#[test]
fn tcp_large_packet_is_read_whole() {
    let mut body = handshake_body("fractal.example.com");
    body.extend_from_slice(&vec![0xabu8; 100_000]);
    let packet = framed(&body);
    for piece in [4096, 8192, 100_000] {
        let mut worker = TcpProxy::new(None);
        let (r, used) = drive(&mut worker, &packet, piece);
        assert_eq!(r, Ok(Progress::Complete));
        assert_eq!(used, packet.len());
        assert_eq!(worker.packet(), packet);
    }
}

#[test]
fn server_name_of_a_handshake() {
    assert_eq!(
        read_server_name(&handshake_body("fractal.example.com")),
        Some("fractal.example.com".to_string())
    );
    assert_eq!(read_server_name(&handshake_body("")), Some(String::new()));
}

#[test]
fn server_name_is_absent_from_other_packets() {
    let mut body = handshake_body("fractal.example.com");
    body[0] = 0x01;
    assert_eq!(read_server_name(&body), None);
    assert_eq!(read_server_name(&[]), None);
    assert_eq!(read_server_name(&[0x00]), None);
    assert_eq!(read_server_name(&[0x00, 0x05]), None);
    assert_eq!(read_server_name(&[0x00, 0x05, 0x03, b'a']), None);
    assert_eq!(read_server_name(&[0x00, 0x05, 0x02, 0xc3, 0x28]), None);
    assert_eq!(read_server_name(&[0x00, 0x80, 0x80, 0x80, 0x80, 0x80, 0x01, 0x01, b'a']), None);
}

#[test]
fn route_resolution() {
    let router = configured();
    let packet = [1u8];
    assert_eq!(
        resolve_route(&router, &packet, &Some("fractal.example.com".to_string())),
        Ok(fractal())
    );
    assert_eq!(resolve_route(&router, &packet, &Some("fractal".to_string())), Ok(fractal()));
    assert_eq!(resolve_route(&router, &[], &Some("fractal".to_string())), Err(ProxyError::EmptyPacket));
    assert_eq!(resolve_route(&router, &packet, &None), Err(ProxyError::ServerNameMissing));
    assert_eq!(
        resolve_route(&router, &packet, &Some(".example.com".to_string())),
        Err(ProxyError::InvalidServerName)
    );
    assert_eq!(resolve_route(&router, &packet, &Some(String::new())), Err(ProxyError::InvalidServerName));
    assert_eq!(
        resolve_route(&router, &packet, &Some("absent.example.com".to_string())),
        Err(ProxyError::UnknownServer)
    );
}

#[test]
fn tcp_happy_path() {
    let mut router = configured();
    let packet = framed(&handshake_body("fractal.example.com"));
    let mut worker = TcpProxy::new(Some(client()));
    assert_eq!(drive(&mut worker, &packet, 5).0, Ok(Progress::Complete));
    let admission = admitted(&mut worker, &mut router);
    assert_eq!(admission.upstream_tcp, v4(10, 0, 0, 1, 25565));
    assert_eq!(admission.upstream_udp, v4(10, 0, 0, 1, 24454));
    assert_eq!(admission.first_packet, packet);
    assert_eq!(router.lookup_udp_ip_for_client(&CLIENT_IP), Some(UPSTREAM_IP));
    assert_eq!(router.lookup_udp_for_client(&client()), Some(v4(10, 0, 0, 1, 24454)));
    worker.release(&mut router);
    assert_eq!(router.lookup_udp_ip_for_client(&CLIENT_IP), Some(UPSTREAM_IP));
    assert_eq!(router.lookup_udp_for_client(&client()), None);
    worker.release(&mut router);
    assert_eq!(router.lookup_udp_for_client(&client()), None);
}

#[test]
fn tcp_happy_path_of_a_seventeen_byte_packet() {
    let mut router = configured();
    let mut packet = vec![0x10, 0x00, 0x2f, 0x0a];
    packet.extend_from_slice(b"fractal.mc");
    packet.extend_from_slice(&[0x63, 0xdd, 0x02]);
    assert_eq!(packet.len(), 17);
    let mut worker = TcpProxy::new(Some(client()));
    assert_eq!(worker.feed(&packet[..5]), Ok(Progress::NeedBytes(12)));
    assert_eq!(worker.feed(&packet[5..]), Ok(Progress::Complete));
    assert_eq!(worker.server_name(), Some("fractal.mc".to_string()));
    let admission = admitted(&mut worker, &mut router);
    assert_eq!(admission.upstream_tcp, v4(10, 0, 0, 1, 25565));
    assert_eq!(admission.first_packet, packet);
    worker.release(&mut router);
    assert_eq!(router.lookup_udp_ip_for_client(&CLIENT_IP), Some(UPSTREAM_IP));
    assert_eq!(router.lookup_udp_for_client(&client()), None);
}

#[test]
fn tcp_happy_path_asked_now() {
    let mut router = configured();
    let packet = framed(&handshake_body("fractal.example.com"));
    let mut worker = TcpProxy::new(Some(client()));
    assert_eq!(drive(&mut worker, &packet, 3).0, Ok(Progress::Complete));
    match worker.admit_now(&mut router) {
        Ok(admission) => {
            assert_eq!(admission.upstream_tcp, v4(10, 0, 0, 1, 25565));
            assert_eq!(admission.first_packet, packet);
        },
        Err(e) => panic!("not admitted: {}", e.message()),
    }
    worker.release(&mut router);
    assert_eq!(router.lookup_udp_for_client(&client()), None);
}

#[test]
fn tcp_worker_without_peer_address_registers_nothing() {
    let mut router = configured();
    let packet = framed(&handshake_body("fractal.example.com"));
    let mut worker = TcpProxy::new(None);
    assert_eq!(drive(&mut worker, &packet, 5).0, Ok(Progress::Complete));
    let admission = admitted(&mut worker, &mut router);
    assert_eq!(admission.upstream_tcp, v4(10, 0, 0, 1, 25565));
    assert_eq!(router.lookup_udp_ip_for_client(&CLIENT_IP), None);
    assert_eq!(router.clients_for_upstream(&v4(10, 0, 0, 1, 24454)), vec![]);
}

#[test]
fn tcp_unknown_route() {
    let mut router = configured();
    let packet = framed(&handshake_body("absent.example.com"));
    let mut worker = TcpProxy::new(Some(client()));
    assert_eq!(drive(&mut worker, &packet, 5).0, Ok(Progress::Complete));
    let e = refused(&mut worker, &mut router, 0);
    assert_eq!(e, ProxyError::UnknownServer);
    assert_eq!(e.kind(), ErrorKind::NotFound);
    assert_eq!(router.lookup_udp_ip_for_client(&CLIENT_IP), None);
    assert_eq!(router.lookup_udp_for_client(&client()), None);
}

#[test]
fn tcp_packet_that_is_no_handshake() {
    let mut router = configured();
    let mut body = handshake_body("fractal.example.com");
    body[0] = 0x07;
    let mut worker = TcpProxy::new(Some(client()));
    assert_eq!(drive(&mut worker, &framed(&body), 5).0, Ok(Progress::Complete));
    let e = refused(&mut worker, &mut router, 0);
    assert_eq!(e, ProxyError::ServerNameMissing);
    assert_eq!(e.kind(), ErrorKind::InvalidData);
}

#[test]
fn tcp_address_with_empty_first_label() {
    let mut router = configured();
    let mut worker = TcpProxy::new(Some(client()));
    let packet = framed(&handshake_body(".example.com"));
    assert_eq!(drive(&mut worker, &packet, 5).0, Ok(Progress::Complete));
    assert_eq!(refused(&mut worker, &mut router, 0), ProxyError::InvalidServerName);
}

#[test]
fn tcp_rate_limit_refuses_a_packet_over_the_burst() {
    let mut router = configured();
    let mut body = handshake_body("fractal.example.com");
    body.extend_from_slice(&vec![0u8; 128 * 1024]);
    let packet = framed(&body);
    let mut worker = TcpProxy::new(Some(client()));
    assert_eq!(drive(&mut worker, &packet, 8192).0, Ok(Progress::Complete));
    let e = refused(&mut worker, &mut router, 3_600_000_000_000);
    assert_eq!(e, ProxyError::RateLimited);
    assert_eq!(e.kind(), ErrorKind::Other);
    assert_eq!(router.lookup_udp_ip_for_client(&CLIENT_IP), Some(UPSTREAM_IP));
    assert_eq!(router.lookup_udp_for_client(&client()), None);
}

#[test]
fn tcp_rate_limit_admits_a_packet_of_the_burst_size() {
    let mut router = configured();
    let head = handshake_body("fractal.example.com");
    let mut body = head.clone();
    body.extend_from_slice(&vec![0u8; 128 * 1024 - 3 - head.len()]);
    let packet = framed(&body);
    assert_eq!(packet.len(), 128 * 1024);
    let mut worker = TcpProxy::new(Some(client()));
    assert_eq!(drive(&mut worker, &packet, 8192).0, Ok(Progress::Complete));
    assert_eq!(admitted(&mut worker, &mut router).first_packet.len(), 128 * 1024);
}

#[test]
fn guard_registers_and_releases() {
    let mut router = Router::new();
    let upstream = v4(10, 0, 0, 1, 24454);
    let mut guard = UdpMappingGuard::new(&mut router, client(), upstream);
    assert_eq!(router.lookup_udp_for_client(&client()), Some(upstream));
    guard.release(&mut router);
    assert_eq!(router.lookup_udp_for_client(&client()), None);
    router.register_udp_mapping(client(), upstream);
    guard.release(&mut router);
    assert_eq!(router.lookup_udp_for_client(&client()), Some(upstream));
    let mut idle = UdpMappingGuard::idle();
    idle.release(&mut router);
    assert_eq!(router.lookup_udp_for_client(&client()), Some(upstream));
}
