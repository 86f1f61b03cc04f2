use tinyvpn::net::{IpAddress, SocketAddress};
use tinyvpn::relay::{Relay, RelayAction};

const T0: u64 = 1_700_000_000;

fn addr(last_octet: u32, port: u16) -> SocketAddress {
    SocketAddress { ip: IpAddress::V4(0x7f00_0000 | last_octet), port }
}

fn forwarded_to(action: RelayAction) -> Vec<SocketAddress> {
    match action {
        RelayAction::Forward(dests) => dests,
        RelayAction::Acknowledge => panic!("a data packet was taken for a registration"),
    }
}

fn acknowledged(action: RelayAction) -> bool {
    matches!(action, RelayAction::Acknowledge)
}

#[test]
fn register_pair_and_forward() {
    let mut relay = Relay::new();
    // Distinct loopback IPs model two separate hosts.
    let node_a = addr(1, 40001);
    let node_b = addr(2, 40002);

    assert!(acknowledged(relay.on_datagram(b"REGISTER:node-a:node-b", node_a, T0)));
    assert!(acknowledged(relay.on_datagram(b"REGISTER:node-b:node-a", node_b, T0)));

    let to = forwarded_to(relay.on_datagram(b"hello from A", node_a, T0 + 1));
    assert_eq!(to, vec![node_b]);

    let to = forwarded_to(relay.on_datagram(b"hello from B", node_b, T0 + 2));
    assert_eq!(to, vec![node_a]);
}

#[test]
fn relay_learns_wg_port_separate_from_register() {
    let mut relay = Relay::new();
    // Registration sockets (ephemeral), distinct IPs to model two hosts.
    let reg_a = addr(1, 40001);
    let reg_b = addr(2, 40002);
    assert!(acknowledged(relay.on_datagram(b"REGISTER:node-a:node-b", reg_a, T0)));
    assert!(acknowledged(relay.on_datagram(b"REGISTER:node-b:node-a", reg_b, T0)));

    // WireGuard data sockets: different ports than registration.
    let wg_a = addr(1, 51820);
    let wg_b = addr(2, 51821);

    // B sends first: it goes to A's registration endpoint, and the relay
    // learns B's real WireGuard port.
    let to = forwarded_to(relay.on_datagram(b"handshake-b", wg_b, T0 + 1));
    assert_eq!(to, vec![reg_a]);

    // A's packet must go to B's real WireGuard port, not its registration port.
    let to = forwarded_to(relay.on_datagram(b"data-a", wg_a, T0 + 2));
    assert!(to.contains(&wg_b), "B's real WG port was never learned (port roaming broken)");
    assert_eq!(to, vec![wg_b]);
}

#[test]
fn relay_fanout_to_multiple_peers() {
    let mut relay = Relay::new();
    let reg_a = addr(1, 40001);
    let reg_b = addr(2, 40002);
    let reg_c = addr(3, 40003);

    // A registers for both B and C; B and C each register for A.
    assert!(acknowledged(relay.on_datagram(b"REGISTER:node-a:node-b", reg_a, T0)));
    assert!(acknowledged(relay.on_datagram(b"REGISTER:node-a:node-c", reg_a, T0)));
    assert!(acknowledged(relay.on_datagram(b"REGISTER:node-b:node-a", reg_b, T0)));
    assert!(acknowledged(relay.on_datagram(b"REGISTER:node-c:node-a", reg_c, T0)));

    // B and C send first so the relay learns their real WG ports.
    let wg_a = addr(1, 51820);
    let wg_b = addr(2, 51820);
    let wg_c = addr(3, 51820);
    forwarded_to(relay.on_datagram(b"learn-b", wg_b, T0 + 1));
    forwarded_to(relay.on_datagram(b"learn-c", wg_c, T0 + 1));

    // A sends one packet; both B and C must receive it.
    let to = forwarded_to(relay.on_datagram(b"broadcast", wg_a, T0 + 2));
    assert!(to.contains(&wg_b), "B never received (fan-out broken)");
    assert!(to.contains(&wg_c), "C never received (fan-out broken)");
}

#[test]
fn unknown_packet_dropped() {
    let mut relay = Relay::new();
    let stranger = addr(1, 40001);
    let to = forwarded_to(relay.on_datagram(b"random data", stranger, T0));
    assert!(to.is_empty());
}

// Further cases of the relay's rules.

#[test]
fn malformed_registration_is_acknowledged_but_ignored() {
    let mut relay = Relay::new();
    let a = addr(1, 40001);
    assert!(acknowledged(relay.on_datagram(b"REGISTER:node-a", a, T0)));
    assert!(forwarded_to(relay.on_datagram(b"data", a, T0 + 1)).is_empty());
}

#[test]
fn registration_peer_id_keeps_later_colons() {
    let mut relay = Relay::new();
    let a = addr(1, 40001);
    let b = addr(2, 40002);
    assert!(acknowledged(relay.on_datagram(b"REGISTER:node-a:node:b", a, T0)));
    assert!(acknowledged(relay.on_datagram(b"REGISTER:node:b:node-a", b, T0)));
    // node-a asked for "node:b"; the second registration is node "node" asking for "b:node-a".
    assert!(forwarded_to(relay.on_datagram(b"x", a, T0 + 1)).is_empty());
}

#[test]
fn repeated_registration_forwards_once() {
    let mut relay = Relay::new();
    let a = addr(1, 40001);
    let b = addr(2, 40002);
    relay.on_datagram(b"REGISTER:node-a:node-b", a, T0);
    relay.on_datagram(b"REGISTER:node-a:node-b", a, T0);
    relay.on_datagram(b"REGISTER:node-b:node-a", b, T0);
    assert_eq!(forwarded_to(relay.on_datagram(b"x", a, T0 + 1)), vec![b]);
}

#[test]
fn reap_forgets_silent_nodes() {
    let mut relay = Relay::new();
    let a = addr(1, 40001);
    let b = addr(2, 40002);
    relay.on_datagram(b"REGISTER:node-a:node-b", a, T0);
    relay.on_datagram(b"REGISTER:node-b:node-a", b, T0 + 20);
    relay.reap(T0 + 29);
    assert_eq!(forwarded_to(relay.on_datagram(b"x", b, T0 + 29)), vec![a]);
    // node-a was last heard at T0; 30 seconds later it is forgotten.
    relay.reap(T0 + 30);
    assert!(forwarded_to(relay.on_datagram(b"y", b, T0 + 31)).is_empty());
    assert!(forwarded_to(relay.on_datagram(b"z", a, T0 + 31)).is_empty());
}
