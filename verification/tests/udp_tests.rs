use routeproxy::addr::{IpAddress, SocketAddress};
use routeproxy::proto::router::Router;
use routeproxy::proto::udp_proxy::{Rule, SendFailure, UdpProxy};

const UPSTREAM_IP: IpAddress = IpAddress::V4(0x0a00_0001);
const CLIENT_IP: IpAddress = IpAddress::V4(0xc0a8_0105);

fn v4(a: u8, b: u8, c: u8, d: u8, port: u16) -> SocketAddress {
    SocketAddress::V4 { ip: u32::from_be_bytes([a, b, c, d]), port }
}

fn upstream() -> SocketAddress {
    v4(10, 0, 0, 1, 24454)
}

fn client() -> SocketAddress {
    v4(192, 168, 1, 5, 54321)
}

fn configured() -> Router {
    let mut router = Router::new();
    router.add_route("fractal".to_string(), v4(10, 0, 0, 1, 25565), upstream());
    router
}

#[test]
fn udp_pending_ttl_is_ten_seconds() {
    assert_eq!(UdpProxy::new().pending_ttl_secs(), 10);
}

#[test]
fn udp_unknown_sender_is_dropped() {
    let relay = UdpProxy::new();
    let mut router = configured();
    let d = relay.on_datagram(&mut router, client());
    assert_eq!(d.rule, Rule::Unmatched);
    assert_eq!(d.targets, vec![]);
    assert_eq!(d.promoted, vec![]);
    assert_eq!(d.source_port, None);
    assert_eq!(d.newly_pending, None);
    assert_eq!(router.lookup_udp_for_client(&client()), None);
    assert_eq!(router.pending_take(CLIENT_IP), vec![]);
}

#[test]
fn udp_first_from_client_with_hint_fans_out() {
    let relay = UdpProxy::new();
    let mut router = configured();
    router.add_route("second".to_string(), v4(10, 0, 0, 1, 25566), v4(10, 0, 0, 1, 24455));
    router.add_route("elsewhere".to_string(), v4(10, 0, 0, 2, 25565), v4(10, 0, 0, 2, 24454));
    router.register_udp_ip_mapping(CLIENT_IP, UPSTREAM_IP);
    let d = relay.on_datagram(&mut router, client());
    assert_eq!(d.rule, Rule::HintFanOut);
    assert_eq!(d.targets, vec![upstream(), v4(10, 0, 0, 1, 24455)]);
    assert_eq!(d.source_port, Some(54321));
    assert_eq!(d.promoted, vec![]);
    assert_eq!(d.newly_pending, Some(UPSTREAM_IP));
    assert_eq!(router.lookup_udp_for_client(&client()), None);
    assert_eq!(router.pending_take(UPSTREAM_IP), vec![client()]);
}

#[test]
fn udp_second_datagram_of_a_waiting_client_arms_no_timer() {
    let relay = UdpProxy::new();
    let mut router = configured();
    router.register_udp_ip_mapping(CLIENT_IP, UPSTREAM_IP);
    let first = relay.on_datagram(&mut router, client());
    assert_eq!(first.newly_pending, Some(UPSTREAM_IP));
    let second = relay.on_datagram(&mut router, client());
    assert_eq!(second.rule, Rule::HintFanOut);
    assert_eq!(second.targets, vec![upstream()]);
    assert_eq!(second.newly_pending, None);
    assert_eq!(router.pending_take(UPSTREAM_IP), vec![client()]);
}

#[test]
fn udp_hint_without_endpoints_still_lets_the_client_wait() {
    let relay = UdpProxy::new();
    let mut router = Router::new();
    router.register_udp_ip_mapping(CLIENT_IP, UPSTREAM_IP);
    let d = relay.on_datagram(&mut router, client());
    assert_eq!(d.rule, Rule::HintFanOut);
    assert_eq!(d.targets, vec![]);
    assert_eq!(d.newly_pending, Some(UPSTREAM_IP));
    assert_eq!(router.pending_take(UPSTREAM_IP), vec![client()]);
}

#[test]
fn udp_upstream_reply_promotes_pending() {
    let relay = UdpProxy::new();
    let mut router = configured();
    router.register_udp_ip_mapping(CLIENT_IP, UPSTREAM_IP);
    relay.on_datagram(&mut router, client());
    let d = relay.on_datagram(&mut router, upstream());
    assert_eq!(d.rule, Rule::PromotePending);
    assert_eq!(d.targets, vec![client()]);
    assert_eq!(d.promoted, vec![client()]);
    assert_eq!(d.source_port, None);
    assert_eq!(d.newly_pending, None);
    assert_eq!(router.lookup_udp_for_client(&client()), Some(upstream()));
    assert_eq!(router.pending_take(UPSTREAM_IP), vec![]);
}

#[test]
fn udp_reply_from_another_port_of_the_upstream_ip_promotes_too() {
    let relay = UdpProxy::new();
    let mut router = configured();
    router.register_udp_ip_mapping(CLIENT_IP, UPSTREAM_IP);
    relay.on_datagram(&mut router, client());
    let other_port = v4(10, 0, 0, 1, 40000);
    let d = relay.on_datagram(&mut router, other_port);
    assert_eq!(d.rule, Rule::PromotePending);
    assert_eq!(router.lookup_udp_for_client(&client()), Some(other_port));
    assert_eq!(router.pending_take(UPSTREAM_IP), vec![]);
}

#[test]
fn udp_steady_state_forwards_both_ways() {
    let relay = UdpProxy::new();
    let mut router = configured();
    let second = v4(192, 168, 1, 4, 40000);
    router.register_udp_mapping(client(), upstream());
    router.register_udp_mapping(second, upstream());
    let up = relay.on_datagram(&mut router, client());
    assert_eq!(up.rule, Rule::ExactClient);
    assert_eq!(up.targets, vec![upstream()]);
    assert_eq!(up.source_port, None);
    let down = relay.on_datagram(&mut router, upstream());
    assert_eq!(down.rule, Rule::ReplyToClients);
    assert_eq!(down.targets, vec![second, client()]);
    assert_eq!(down.promoted, vec![]);
    assert_eq!(router.lookup_udp_for_client(&client()), Some(upstream()));
    assert_eq!(router.lookup_udp_for_client(&second), Some(upstream()));
}

#[test]
fn udp_reply_to_known_clients_also_promotes_pending() {
    let relay = UdpProxy::new();
    let mut router = configured();
    let old_client = v4(192, 168, 1, 4, 40000);
    router.register_udp_mapping(old_client, upstream());
    router.register_udp_ip_mapping(CLIENT_IP, UPSTREAM_IP);
    relay.on_datagram(&mut router, client());
    let d = relay.on_datagram(&mut router, upstream());
    assert_eq!(d.rule, Rule::ReplyToClients);
    assert_eq!(d.targets, vec![old_client]);
    assert_eq!(d.promoted, vec![client()]);
    assert_eq!(router.lookup_udp_for_client(&client()), Some(upstream()));
    assert_eq!(router.pending_take(UPSTREAM_IP), vec![]);
}

#[test]
fn udp_exact_client_rule_comes_first() {
    let relay = UdpProxy::new();
    let mut router = configured();
    let both = v4(10, 0, 0, 1, 24454);
    let target = v4(10, 0, 0, 7, 1);
    router.register_udp_mapping(both, target);
    router.register_udp_mapping(client(), both);
    assert!(router.pending_add(UPSTREAM_IP, v4(192, 168, 1, 9, 1)));
    let d = relay.on_datagram(&mut router, both);
    assert_eq!(d.rule, Rule::ExactClient);
    assert_eq!(d.targets, vec![target]);
    assert_eq!(router.pending_take(UPSTREAM_IP), vec![v4(192, 168, 1, 9, 1)]);
}

#[test]
fn udp_connection_reset_ends_the_mapping_of_a_client() {
    let relay = UdpProxy::new();
    let mut router = configured();
    router.register_udp_mapping(client(), upstream());
    let d = relay.on_datagram(&mut router, client());
    relay.on_send_failed(&mut router, client(), &d, upstream(), SendFailure::Other);
    assert_eq!(router.lookup_udp_for_client(&client()), Some(upstream()));
    relay.on_send_failed(&mut router, client(), &d, upstream(), SendFailure::ConnectionReset);
    assert_eq!(router.lookup_udp_for_client(&client()), None);
    assert_eq!(relay.on_datagram(&mut router, client()).rule, Rule::Unmatched);
}

#[test]
fn udp_connection_reset_on_a_reply_ends_the_mapping_of_the_target() {
    let relay = UdpProxy::new();
    let mut router = configured();
    let second = v4(192, 168, 1, 4, 40000);
    router.register_udp_mapping(client(), upstream());
    router.register_udp_mapping(second, upstream());
    let d = relay.on_datagram(&mut router, upstream());
    relay.on_send_failed(&mut router, upstream(), &d, second, SendFailure::ConnectionReset);
    assert_eq!(router.lookup_udp_for_client(&second), None);
    assert_eq!(router.lookup_udp_for_client(&client()), Some(upstream()));
}

#[test]
fn udp_connection_reset_after_promotion_ends_the_new_mapping() {
    let relay = UdpProxy::new();
    let mut router = configured();
    router.register_udp_ip_mapping(CLIENT_IP, UPSTREAM_IP);
    relay.on_datagram(&mut router, client());
    let d = relay.on_datagram(&mut router, upstream());
    assert_eq!(d.rule, Rule::PromotePending);
    relay.on_send_failed(&mut router, upstream(), &d, client(), SendFailure::ConnectionReset);
    assert_eq!(router.lookup_udp_for_client(&client()), None);
}

#[test]
fn udp_connection_reset_spares_a_client_promoted_by_the_same_reply() {
    let relay = UdpProxy::new();
    let mut router = configured();
    router.register_udp_mapping(client(), upstream());
    assert!(router.pending_add(UPSTREAM_IP, client()));
    let d = relay.on_datagram(&mut router, upstream());
    assert_eq!(d.rule, Rule::ReplyToClients);
    assert_eq!(d.targets, vec![client()]);
    assert_eq!(d.promoted, vec![client()]);
    relay.on_send_failed(&mut router, upstream(), &d, client(), SendFailure::ConnectionReset);
    assert_eq!(router.lookup_udp_for_client(&client()), Some(upstream()));
}

#[test]
fn udp_connection_reset_during_fan_out_changes_nothing() {
    let relay = UdpProxy::new();
    let mut router = configured();
    router.register_udp_ip_mapping(CLIENT_IP, UPSTREAM_IP);
    router.register_udp_mapping(upstream(), v4(10, 9, 9, 9, 9));
    router.unregister_udp_mapping(&upstream());
    router.register_udp_mapping(v4(1, 1, 1, 1, 1), v4(2, 2, 2, 2, 2));
    let d = relay.on_datagram(&mut router, client());
    assert_eq!(d.rule, Rule::HintFanOut);
    relay.on_send_failed(&mut router, client(), &d, upstream(), SendFailure::ConnectionReset);
    assert_eq!(router.lookup_udp_for_client(&v4(1, 1, 1, 1, 1)), Some(v4(2, 2, 2, 2, 2)));
    assert_eq!(router.pending_take(UPSTREAM_IP), vec![client()]);
}

#[test]
fn udp_pending_client_expires() {
    let relay = UdpProxy::new();
    let mut router = configured();
    router.register_udp_ip_mapping(CLIENT_IP, UPSTREAM_IP);
    let d = relay.on_datagram(&mut router, client());
    assert_eq!(d.newly_pending, Some(UPSTREAM_IP));
    relay.on_ttl_expired(&mut router, UPSTREAM_IP, client());
    let reply = relay.on_datagram(&mut router, upstream());
    assert_eq!(reply.rule, Rule::Unmatched);
    assert_eq!(router.lookup_udp_for_client(&client()), None);
}

#[test]
fn udp_expiry_after_promotion_changes_nothing() {
    let relay = UdpProxy::new();
    let mut router = configured();
    router.register_udp_ip_mapping(CLIENT_IP, UPSTREAM_IP);
    relay.on_datagram(&mut router, client());
    relay.on_datagram(&mut router, upstream());
    relay.on_ttl_expired(&mut router, UPSTREAM_IP, client());
    assert_eq!(router.lookup_udp_for_client(&client()), Some(upstream()));
    assert_eq!(router.pending_take(UPSTREAM_IP), vec![]);
}
