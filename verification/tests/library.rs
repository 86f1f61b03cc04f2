use tinyvpn::cli::{
    acl_reply_lines, acl_request, allowed_ip_for, base64_encode, forward_addresses, peer_connect_line,
    peer_plan, peer_status_line, registered_config, registration_request, relay_registration_message,
    relay_reply_ok, AclCommand, PeerPlan,
};
use tinyvpn::protocol::{AclGroupEntry, AclRuleEntry, ControlMessage, PeerInfo};
use tinyvpn::config::{join_path, NodeConfig, CCS_DEFAULT_ADDR, NETWORK_CIDR};
use tinyvpn::crypto::{decrypt, encrypt, generate_keypair, random_nonce, CryptoError};
use tinyvpn::net::{relay_endpoint_text, relay_send_address, IpAddress, SocketAddress};
use tinyvpn::puncher::{is_punch_reply, punch_message, punch_step, PunchStep, PUNCH_ATTEMPTS};
use tinyvpn::registry::now_secs;
use tinyvpn::stun::{binding_request_bytes, read_binding_response, stun_response_in_bounds, StunError};
use tinyvpn::text::{hex_encode, push_decimal, str_eq};
use tinyvpn::wg::{setup_after, SetupOutcome, SetupStep, WgInterface};

fn make_config() -> NodeConfig {
    NodeConfig {
        node_id: "node-test".into(),
        name: "test".into(),
        private_key: "privkey123".into(),
        vpn_ip: "10.13.0.5".into(),
        ccs_addr: "127.0.0.1:9090".into(),
        session_token: "tok123".into(),
    }
}

#[test]
fn config_fields_and_constants() {
    let config = make_config();
    let copy = config.clone();
    assert_eq!(copy.node_id, "node-test");
    assert_eq!(copy.vpn_ip, "10.13.0.5");
    assert_eq!(copy.session_token, "tok123");
    assert_eq!(NETWORK_CIDR, "10.13.0.0/16");
    assert_eq!(CCS_DEFAULT_ADDR, "0.0.0.0:9090");
}

#[test]
fn config_path_under_home() {
    assert_eq!(NodeConfig::config_path("/root"), "/root/.tinyvpn/config.json");
    assert_eq!(NodeConfig::config_path("/home/u/"), "/home/u/.tinyvpn/config.json");
    assert_eq!(join_path("", "a"), "a");
    assert_eq!(join_path("/x", "/abs"), "/abs");
}

#[test]
fn base64_matches_the_standard_alphabet() {
    assert_eq!(base64_encode(b""), "");
    assert_eq!(base64_encode(b"f"), "Zg==");
    assert_eq!(base64_encode(b"fo"), "Zm8=");
    assert_eq!(base64_encode(b"foo"), "Zm9v");
    assert_eq!(base64_encode(b"foobar"), "Zm9vYmFy");
    assert_eq!(base64_encode(&[0xfb, 0xff, 0xfe]), "+//+");
    assert_eq!(base64_encode(&[0u8; 32]).len(), 44);
}

#[test]
fn keypair_public_half_matches_secret() {
    let (secret, public) = generate_keypair();
    let expected = x25519_dalek::PublicKey::from(&x25519_dalek::StaticSecret::from(secret));
    assert_eq!(public, expected.to_bytes());
    assert_ne!(public, secret);
    let (secret2, _) = generate_keypair();
    assert_ne!(secret, secret2);
}

#[test]
fn encrypt_then_decrypt_round_trips() {
    let key = [7u8; 32];
    let nonce = random_nonce();
    let msg = b"hello through the tunnel";
    let sealed = encrypt(&key, &nonce, msg).unwrap();
    assert_eq!(sealed.len(), msg.len() + 16);
    assert_ne!(&sealed[..msg.len()], &msg[..]);
    assert_eq!(decrypt(&key, &nonce, &sealed).unwrap(), msg.to_vec());
}

#[test]
fn decrypt_rejects_tampering_and_short_input() {
    let key = [1u8; 32];
    let nonce = [2u8; 12];
    let mut sealed = encrypt(&key, &nonce, b"payload").unwrap();
    sealed[0] ^= 1;
    assert_eq!(decrypt(&key, &nonce, &sealed), Err(CryptoError::DecryptionFailed));
    assert_eq!(decrypt(&key, &nonce, &[0u8; 15]), Err(CryptoError::DecryptionFailed));
    let other_key = [9u8; 32];
    let sealed = encrypt(&key, &nonce, b"payload").unwrap();
    assert_eq!(decrypt(&other_key, &nonce, &sealed), Err(CryptoError::DecryptionFailed));
}

#[test]
fn nonces_differ() {
    assert_ne!(random_nonce(), random_nonce());
}

#[test]
fn wg_interface_paths_and_configs() {
    let wg = WgInterface::new("wg-tinyvpn");
    assert_eq!(wg.name(), "wg-tinyvpn");
    assert_eq!(wg.config_path(), "/etc/wireguard/wg-tinyvpn.conf");
    assert_eq!(wg.setconf_path(), "/etc/wireguard/wg-tinyvpn.wg.conf");
    assert_eq!(
        WgInterface::interface_config("10.13.0.1", "KEY", 51820),
        "[Interface]\nPrivateKey = KEY\nAddress = 10.13.0.1/16\nListenPort = 51820\n"
    );
    assert_eq!(
        WgInterface::setconf_config("KEY", 51820),
        "[Interface]\nPrivateKey = KEY\nListenPort = 51820\n"
    );
}

#[test]
fn wg_commands() {
    let wg = WgInterface::new("wg0");
    let c = wg.link_add_command();
    assert_eq!(c.program, "ip");
    assert_eq!(c.args, vec!["link", "add", "wg0", "type", "wireguard"]);
    let c = wg.setconf_command();
    assert_eq!(c.program, "wg");
    assert_eq!(c.args, vec!["setconf", "wg0", "/etc/wireguard/wg0.wg.conf"]);
    let c = wg.address_add_command("10.13.0.7");
    assert_eq!(c.args, vec!["address", "add", "10.13.0.7/16", "dev", "wg0"]);
    let c = wg.link_up_command();
    assert_eq!(c.args, vec!["link", "set", "mtu", "1420", "up", "dev", "wg0"]);
    let c = wg.add_peer_command("PK", "10.13.0.2/32", Some("1.2.3.4:9091"));
    assert_eq!(c.args, vec!["set", "wg0", "peer", "PK", "allowed-ips", "10.13.0.2/32", "endpoint", "1.2.3.4:9091"]);
    let c = wg.add_peer_command("PK", "10.13.0.2/32", None);
    assert_eq!(c.args, vec!["set", "wg0", "peer", "PK", "allowed-ips", "10.13.0.2/32"]);
    let c = wg.remove_peer_command("PK");
    assert_eq!(c.args, vec!["set", "wg0", "peer", "PK", "remove"]);
    let c = wg.delete_command();
    assert_eq!(c.args, vec!["link", "delete", "dev", "wg0"]);
}

#[test]
fn wg_setup_sequence() {
    assert_eq!(setup_after(SetupStep::CreateLink, true), SetupOutcome::Next(SetupStep::Configure));
    assert_eq!(setup_after(SetupStep::Configure, true), SetupOutcome::Next(SetupStep::AssignAddress));
    assert_eq!(setup_after(SetupStep::AssignAddress, true), SetupOutcome::Next(SetupStep::BringUp));
    assert_eq!(setup_after(SetupStep::BringUp, true), SetupOutcome::Up);
    assert_eq!(setup_after(SetupStep::CreateLink, false), SetupOutcome::Failed { clean_up: false });
    assert_eq!(setup_after(SetupStep::Configure, false), SetupOutcome::Failed { clean_up: true });
    assert_eq!(setup_after(SetupStep::BringUp, false), SetupOutcome::Failed { clean_up: true });
    let wg = WgInterface::new("wg0");
    assert_eq!(wg.setup_command(SetupStep::AssignAddress, "10.13.0.3").args, vec!["address", "add", "10.13.0.3/16", "dev", "wg0"]);
    assert_eq!(wg.setup_command(SetupStep::Configure, "x").program, "wg");
}

fn stun_response(attrs: &[u8]) -> Vec<u8> {
    let mut r = vec![0x01, 0x01, (attrs.len() >> 8) as u8, attrs.len() as u8, 0x21, 0x12, 0xA4, 0x42];
    r.extend_from_slice(&[9u8; 12]);
    r.extend_from_slice(attrs);
    r
}

#[test]
fn stun_reads_xor_mapped_address() {
    // 1.2.3.4:51820, XORed with the magic cookie.
    let attrs = [0x00, 0x20, 0x00, 0x08, 0x00, 0x01, 0xEB, 0x7E, 0x20, 0x10, 0xA7, 0x46];
    let data = stun_response(&attrs);
    assert!(stun_response_in_bounds(&data));
    let txn = [9u8; 12];
    assert_eq!(
        read_binding_response(&data, &txn),
        Ok(SocketAddress { ip: IpAddress::V4(0x0102_0304), port: 51820 })
    );
}

#[test]
fn stun_skips_other_attributes_with_padding() {
    // A SOFTWARE attribute of 5 bytes, padded to 8, then the address.
    let attrs = [
        0x80, 0x22, 0x00, 0x05, b'a', b'b', b'c', b'd', b'e', 0, 0, 0,
        0x00, 0x20, 0x00, 0x08, 0x00, 0x01, 0x21, 0x13, 0x5e, 0x12, 0xA4, 0x43,
    ];
    let data = stun_response(&attrs);
    assert!(stun_response_in_bounds(&data));
    assert_eq!(
        read_binding_response(&data, &[0u8; 12]),
        Ok(SocketAddress { ip: IpAddress::V4(0x7f00_0001), port: 1 })
    );
}

#[test]
fn stun_errors() {
    let txn = [0u8; 12];
    assert_eq!(read_binding_response(&[0u8; 19], &txn), Err(StunError::ResponseTooShort));
    let data = stun_response(&[]);
    assert_eq!(read_binding_response(&data, &txn), Err(StunError::NotFound));
    let data = stun_response(&[0x00, 0x20, 0x00, 0x02, 0x00, 0x01, 0, 0]);
    assert_eq!(read_binding_response(&data, &txn), Err(StunError::AttributeTooShort));
    let data = stun_response(&[0x00, 0x20, 0x00, 0x08, 0x00, 0x02, 0, 0, 0, 0, 0, 0]);
    assert_eq!(read_binding_response(&data, &txn), Err(StunError::UnsupportedFamily(2)));
    // The address attribute announces more bytes than the response holds.
    let data = stun_response(&[0x00, 0x20, 0x00, 0x08, 0x00, 0x01]);
    assert!(!stun_response_in_bounds(&data));
}

#[test]
fn stun_binding_request_layout() {
    let txn = [1, 2, 3, 4, 5, 6, 7, 8, 9, 10, 11, 12];
    let req = binding_request_bytes(&txn);
    assert_eq!(req.len(), 20);
    assert_eq!(&req[..8], &[0x00, 0x01, 0x00, 0x00, 0x21, 0x12, 0xA4, 0x42]);
    assert_eq!(&req[8..], &txn);
}

#[test]
fn punch_messages_and_steps() {
    assert_eq!(punch_message("node-a"), "PUNCH:node-a");
    assert!(is_punch_reply(b"PUNCH:node-b"));
    assert!(!is_punch_reply(b"PUNC"));
    assert!(!is_punch_reply(b"hello"));
    // Invalid UTF-8 after the prefix is replaced, not rejected.
    assert!(is_punch_reply(&[b'P', b'U', b'N', b'C', b'H', b':', 0xff, 0xfe]));
    assert!(!is_punch_reply(&[0xff, b'P', b'U', b'N', b'C', b'H', b':']));
    assert_eq!(punch_step(1, Some(b"PUNCH:x")), PunchStep::Connected);
    assert_eq!(punch_step(1, Some(b"other")), PunchStep::Retry);
    assert_eq!(punch_step(1, None), PunchStep::Retry);
    assert_eq!(punch_step(PUNCH_ATTEMPTS - 1, None), PunchStep::Retry);
    assert_eq!(punch_step(PUNCH_ATTEMPTS, None), PunchStep::GiveUp);
    assert_eq!(punch_step(PUNCH_ATTEMPTS, Some(b"PUNCH:late")), PunchStep::Connected);
}

#[test]
fn relay_address_rules() {
    let loopback = SocketAddress { ip: IpAddress::V4(0x7f00_0005), port: 9091 };
    let unspecified = SocketAddress { ip: IpAddress::V4(0), port: 9091 };
    let v6_loopback = SocketAddress { ip: IpAddress::V6(1), port: 9091 };
    let public = SocketAddress { ip: IpAddress::V4(0x0102_0304), port: 9091 };
    let local = SocketAddress { ip: IpAddress::V4(0x7f00_0001), port: 9091 };
    assert_eq!(relay_send_address(loopback), local);
    assert_eq!(relay_send_address(unspecified), local);
    assert_eq!(relay_send_address(v6_loopback), local);
    assert_eq!(relay_send_address(public), public);
    assert_eq!(relay_endpoint_text("0.0.0.0:9091", unspecified), "127.0.0.1:9091");
    assert_eq!(relay_endpoint_text("1.2.3.4:9091", public), "1.2.3.4:9091");
}

#[test]
fn relay_registration_text_and_reply() {
    assert_eq!(relay_registration_message("node-a", "node-b"), "REGISTER:node-a:node-b");
    assert!(relay_reply_ok(b"OK"));
    assert!(relay_reply_ok(b"OK then"));
    assert!(!relay_reply_ok(b"NO"));
    assert!(!relay_reply_ok(b"O"));
}

#[test]
fn client_lines_and_addresses() {
    let peer = PeerInfo {
        node_id: "node-1".into(),
        name: "home".into(),
        vpn_ip: "10.13.0.2".into(),
        public_key: "pk".into(),
        endpoint: String::new(),
        connected: false,
    };
    assert_eq!(peer_status_line(&peer), "   - home (10.13.0.2) → unknown [offline]");
    assert_eq!(peer_connect_line(&peer), "   - home (10.13.0.2) [offline]");
    let peer = PeerInfo { endpoint: "1.2.3.4:51820".into(), connected: true, ..peer };
    assert_eq!(peer_status_line(&peer), "   - home (10.13.0.2) → 1.2.3.4:51820 [online]");
    assert_eq!(allowed_ip_for("10.13.0.2"), "10.13.0.2/32");
    assert_eq!(
        forward_addresses("10.13.0.2", 80, 8080),
        ("127.0.0.1:8080".to_string(), "10.13.0.2:80".to_string())
    );
    assert_eq!(
        forward_addresses("10.13.0.1", 22, 2222),
        ("127.0.0.1:2222".to_string(), "10.13.0.1:22".to_string())
    );
}

#[test]
fn registration_sends_only_the_public_key() {
    let secret = [1u8; 32];
    let public = [2u8; 32];
    match registration_request("office", &public) {
        ControlMessage::Register { name, public_key } => {
            assert_eq!(name, "office");
            assert_eq!(public_key, base64_encode(&public));
            assert_ne!(public_key, base64_encode(&secret));
        }
        other => panic!("unexpected {:?}", other),
    }
    let reply = ControlMessage::RegisterOk { node_id: "node-1".into(), vpn_ip: "10.13.0.1".into(), session_token: "tok".into() };
    let config = registered_config(reply, "office", &secret, "1.2.3.4:9090").unwrap();
    assert_eq!(config.node_id, "node-1");
    assert_eq!(config.vpn_ip, "10.13.0.1");
    assert_eq!(config.session_token, "tok");
    assert_eq!(config.name, "office");
    assert_eq!(config.ccs_addr, "1.2.3.4:9090");
    assert_eq!(config.private_key, base64_encode(&secret));
    assert!(registered_config(ControlMessage::Pong, "office", &secret, "x").is_none());
}

#[test]
fn peer_plans() {
    let peer = PeerInfo {
        node_id: "node-b".into(),
        name: "b".into(),
        vpn_ip: "10.13.0.2".into(),
        public_key: "PKB".into(),
        endpoint: String::new(),
        connected: true,
    };
    assert!(matches!(peer_plan(&peer, "node-a", &ControlMessage::Pong, None), PeerPlan::Skip));
    let reply = ControlMessage::RelayAssigned { relay_addr: "0.0.0.0:9091".into(), target_id: Some("node-b".into()) };
    let relay = SocketAddress { ip: IpAddress::V4(0), port: 9091 };
    match peer_plan(&peer, "node-a", &reply, Some(relay)) {
        PeerPlan::Add { relay_registration, public_key, allowed_ip, endpoint } => {
            assert_eq!(relay_registration, Some("REGISTER:node-a:node-b".to_string()));
            assert_eq!(public_key, "PKB");
            assert_eq!(allowed_ip, "10.13.0.2/32");
            assert_eq!(endpoint, "127.0.0.1:9091");
        }
        other => panic!("unexpected {:?}", other),
    }
    let reply = ControlMessage::RelayAssigned { relay_addr: "1.2.3.4:9091".into(), target_id: None };
    let relay = SocketAddress { ip: IpAddress::V4(0x0102_0304), port: 9091 };
    match peer_plan(&peer, "node-a", &reply, Some(relay)) {
        PeerPlan::Add { relay_registration, endpoint, .. } => {
            assert_eq!(relay_registration, None);
            assert_eq!(endpoint, "1.2.3.4:9091");
        }
        other => panic!("unexpected {:?}", other),
    }
    let reply = ControlMessage::RelayAssigned { relay_addr: "nonsense".into(), target_id: None };
    assert!(matches!(peer_plan(&peer, "node-a", &reply, None), PeerPlan::BadRelayAddress));
}

#[test]
fn acl_requests_and_listings() {
    let cmd = AclCommand::AddGroup { node: "node-x".into(), group: "dev".into() };
    match acl_request(&cmd, "me".into(), "tok".into()) {
        ControlMessage::AclAddGroup { node_id, session_token, target_node_id, group_name } => {
            assert_eq!((node_id.as_str(), session_token.as_str(), target_node_id.as_str(), group_name.as_str()), ("me", "tok", "node-x", "dev"));
        }
        other => panic!("unexpected {:?}", other),
    }
    assert!(matches!(acl_request(&AclCommand::List, "me".into(), "tok".into()), ControlMessage::AclList { .. }));
    assert_eq!(acl_reply_lines(&cmd, &ControlMessage::Pong), Some(vec!["Group added.".to_string()]));
    let rm = AclCommand::RemoveRule { from: "a".into(), to: "b".into() };
    assert_eq!(acl_reply_lines(&rm, &ControlMessage::Pong), Some(vec!["Rule removed.".to_string()]));
    assert_eq!(acl_reply_lines(&AclCommand::List, &ControlMessage::Pong), None);
    let empty = ControlMessage::AclListResponse { groups: vec![], rules: vec![] };
    assert_eq!(
        acl_reply_lines(&AclCommand::List, &empty),
        Some(vec!["No groups defined.".to_string(), "No rules defined (every node sees every other).".to_string()])
    );
    let full = ControlMessage::AclListResponse {
        groups: vec![AclGroupEntry { node_id: "node-x".into(), group_name: "dev".into() }],
        rules: vec![AclRuleEntry { from_group: "admin".into(), to_group: "dev".into() }],
    };
    assert_eq!(
        acl_reply_lines(&AclCommand::List, &full),
        Some(vec![
            "Groups:".to_string(),
            "   node-x -> dev".to_string(),
            "Rules:".to_string(),
            "   admin -> dev (allow)".to_string(),
        ])
    );
    assert_eq!(acl_reply_lines(&cmd, &full), None);
}

#[test]
fn text_helpers() {
    assert_eq!(hex_encode(&[0x00, 0xab, 0x10, 0xff]), "00ab10ff");
    let mut s = String::from("n=");
    push_decimal(&mut s, 0);
    push_decimal(&mut s, 1234567890);
    assert_eq!(s, "n=01234567890");
    assert!(str_eq("abc", "abc"));
    assert!(!str_eq("abc", "abd"));
}

#[test]
fn clock_reads_after_2020() {
    assert!(now_secs() > 1_577_836_800);
}
