use tinyvpn::protocol::ControlMessage;
use tinyvpn::registry::{Registry, RegistryError, StoreChange};
use tinyvpn::server::{handle_message, handle_message_with, Handled};

const T0: u64 = 1_700_000_000;

fn send(reg: &mut Registry, msg: ControlMessage, now: u64) -> Handled {
    handle_message(reg, msg, now).unwrap()
}

fn register(reg: &mut Registry, name: &str) -> (String, String, String) {
    let h = send(reg, ControlMessage::Register { name: name.into(), public_key: format!("pk-{}", name) }, T0);
    match (h.reply, h.change) {
        (ControlMessage::RegisterOk { node_id, vpn_ip, session_token }, StoreChange::NodeRegistered { node_id: n2, vpn_ip: v2, session_token: s2, name: m2, .. }) => {
            assert_eq!(node_id, n2);
            assert_eq!(vpn_ip, v2);
            assert_eq!(session_token, s2);
            assert_eq!(m2, name);
            (node_id, vpn_ip, session_token)
        }
        other => panic!("unexpected {:?}", other),
    }
}

fn is_pong_unchanged(h: &Handled) -> bool {
    matches!(h.reply, ControlMessage::Pong) && matches!(h.change, StoreChange::Unchanged)
}

#[test]
fn register_then_list_peers() {
    let mut reg = Registry::new("1.2.3.4:9091".into());
    let (a, ip_a, tok_a) = register(&mut reg, "alpha");
    let (b, ip_b, _) = register(&mut reg, "beta");
    assert_eq!(ip_a, "10.13.0.1");
    assert_eq!(ip_b, "10.13.0.2");
    let h = send(&mut reg, ControlMessage::GetPeers { node_id: a.clone(), session_token: tok_a }, T0);
    match h.reply {
        ControlMessage::PeerList { peers } => {
            assert_eq!(peers.len(), 1);
            assert_eq!(peers[0].node_id, b);
            assert_eq!(peers[0].name, "beta");
            assert_eq!(peers[0].public_key, "pk-beta");
        }
        other => panic!("unexpected {:?}", other),
    }
    assert!(matches!(h.change, StoreChange::Unchanged));
}

#[test]
fn bad_session_is_answered_pong_and_changes_nothing() {
    let mut reg = Registry::new("1.2.3.4:9091".into());
    let (a, _, _) = register(&mut reg, "alpha");
    let bad = "wrong".to_string();
    let msgs = vec![
        ControlMessage::GetPeers { node_id: a.clone(), session_token: bad.clone() },
        ControlMessage::UpdateEndpoint { node_id: a.clone(), session_token: bad.clone(), public_addr: "9.9.9.9:1".into() },
        ControlMessage::RequestRelay { node_id: a.clone(), session_token: bad.clone(), target_id: "x".into() },
        ControlMessage::Ping { node_id: a.clone(), session_token: bad.clone() },
        ControlMessage::AclAddGroup { node_id: a.clone(), session_token: bad.clone(), target_node_id: a.clone(), group_name: "g".into() },
        ControlMessage::AclRemoveGroup { node_id: a.clone(), session_token: bad.clone(), target_node_id: a.clone(), group_name: "g".into() },
        ControlMessage::AclAddRule { node_id: a.clone(), session_token: bad.clone(), from_group: "g".into(), to_group: "h".into() },
        ControlMessage::AclRemoveRule { node_id: a.clone(), session_token: bad.clone(), from_group: "g".into(), to_group: "h".into() },
        ControlMessage::AclList { node_id: a.clone(), session_token: bad.clone() },
    ];
    for m in msgs {
        let h = send(&mut reg, m, T0 + 5);
        assert!(is_pong_unchanged(&h));
    }
    assert!(!reg.has_rules());
    assert!(reg.list_groups().is_empty());
    assert_eq!(reg.get_peer(&a).unwrap().endpoint, "");
}

#[test]
fn server_only_messages_are_answered_pong() {
    let mut reg = Registry::new("1.2.3.4:9091".into());
    let msgs = vec![
        ControlMessage::Pong,
        ControlMessage::RegisterOk { node_id: "n".into(), vpn_ip: "v".into(), session_token: "t".into() },
        ControlMessage::PeerList { peers: vec![] },
        ControlMessage::RelayAssigned { relay_addr: "r".into(), target_id: None },
        ControlMessage::PunchRequest { peer_id: "p".into(), peer_public_key: "k".into(), peer_endpoint: "e".into() },
        ControlMessage::AclListResponse { groups: vec![], rules: vec![] },
    ];
    for m in msgs {
        let h = send(&mut reg, m, T0);
        assert!(is_pong_unchanged(&h));
    }
}

#[test]
fn relay_request_names_relay_and_target() {
    let mut reg = Registry::new("1.2.3.4:9091".into());
    let (a, _, tok) = register(&mut reg, "alpha");
    let h = send(&mut reg, ControlMessage::RequestRelay { node_id: a, session_token: tok, target_id: "node-b".into() }, T0);
    match h.reply {
        ControlMessage::RelayAssigned { relay_addr, target_id } => {
            assert_eq!(relay_addr, "1.2.3.4:9091");
            assert_eq!(target_id, Some("node-b".to_string()));
        }
        other => panic!("unexpected {:?}", other),
    }
}

#[test]
fn endpoint_and_heartbeat_are_recorded() {
    let mut reg = Registry::new("r".into());
    let (a, _, tok) = register(&mut reg, "alpha");
    let h = send(&mut reg, ControlMessage::UpdateEndpoint { node_id: a.clone(), session_token: tok.clone(), public_addr: "5.6.7.8:51820".into() }, T0 + 10);
    assert!(matches!(h.reply, ControlMessage::Pong));
    match h.change {
        StoreChange::EndpointUpdated { node_id, endpoint, last_heartbeat } => {
            assert_eq!(node_id, a);
            assert_eq!(endpoint, "5.6.7.8:51820");
            assert_eq!(last_heartbeat, T0 + 10);
        }
        other => panic!("unexpected {:?}", other),
    }
    assert_eq!(reg.get_peer(&a).unwrap().endpoint, "5.6.7.8:51820");

    reg.reap_stale(T0 + 100);
    assert!(!reg.get_peer(&a).unwrap().connected);
    let h = send(&mut reg, ControlMessage::Ping { node_id: a.clone(), session_token: tok }, T0 + 100);
    assert!(matches!(h.reply, ControlMessage::Pong));
    assert!(matches!(h.change, StoreChange::HeartbeatRecorded { last_heartbeat, .. } if last_heartbeat == T0 + 100));
    assert!(reg.get_peer(&a).unwrap().connected);
}

#[test]
fn acl_requests_change_tables_and_list_them() {
    let mut reg = Registry::new("r".into());
    let (a, _, tok) = register(&mut reg, "alpha");
    let (b, _, _) = register(&mut reg, "beta");
    let h = send(&mut reg, ControlMessage::AclAddGroup { node_id: a.clone(), session_token: tok.clone(), target_node_id: a.clone(), group_name: "admin".into() }, T0);
    assert!(matches!(h.change, StoreChange::GroupAdded { ref node_id, ref group_name } if *node_id == a && group_name == "admin"));
    send(&mut reg, ControlMessage::AclAddGroup { node_id: a.clone(), session_token: tok.clone(), target_node_id: b.clone(), group_name: "dev".into() }, T0);
    let h = send(&mut reg, ControlMessage::AclAddRule { node_id: a.clone(), session_token: tok.clone(), from_group: "admin".into(), to_group: "dev".into() }, T0);
    assert!(matches!(h.change, StoreChange::RuleAdded { .. }));

    let h = send(&mut reg, ControlMessage::AclList { node_id: a.clone(), session_token: tok.clone() }, T0);
    match h.reply {
        ControlMessage::AclListResponse { groups, rules } => {
            assert_eq!(groups.len(), 2);
            assert_eq!(rules.len(), 1);
            assert_eq!(rules[0].from_group, "admin");
            assert_eq!(rules[0].to_group, "dev");
        }
        other => panic!("unexpected {:?}", other),
    }

    let h = send(&mut reg, ControlMessage::AclRemoveRule { node_id: a.clone(), session_token: tok.clone(), from_group: "admin".into(), to_group: "dev".into() }, T0);
    assert!(matches!(h.change, StoreChange::RuleRemoved { .. }));
    let h = send(&mut reg, ControlMessage::AclRemoveGroup { node_id: a.clone(), session_token: tok.clone(), target_node_id: b.clone(), group_name: "dev".into() }, T0);
    assert!(matches!(h.change, StoreChange::GroupRemoved { .. }));
    assert!(!reg.has_rules());
    assert_eq!(reg.list_groups(), vec![(a.clone(), "admin".to_string())]);
}

#[test]
fn registration_uses_the_drawn_bytes() {
    let mut reg = Registry::new("r".into());
    let id = [0xaa; 8];
    let tok = [0x01; 8];
    let msg = || ControlMessage::Register { name: "n".into(), public_key: "k".into() };
    let h = handle_message_with(&mut reg, msg(), T0, &id, &tok).unwrap();
    match h.reply {
        ControlMessage::RegisterOk { node_id, vpn_ip, session_token } => {
            assert_eq!(node_id, "node-aaaaaaaaaaaaaaaa");
            assert_eq!(vpn_ip, "10.13.0.1");
            assert_eq!(session_token, "0101010101010101");
        }
        other => panic!("unexpected {:?}", other),
    }
    assert!(matches!(handle_message_with(&mut reg, msg(), T0, &id, &tok), Err(RegistryError::NodeIdTaken)));
}
