use tinyvpn::protocol::{ControlMessage, PeerInfo};
use tinyvpn::registry::{secs_or_zero, NodeEntry, Registry, RegistryError};
use tinyvpn::registry::StoreChange;
use tinyvpn::server::handle_message;

const T0: u64 = 1_700_000_000;

fn new_registry() -> Registry {
    Registry::new("127.0.0.1:9091".to_string())
}

#[test]
fn register_assigns_sequential_ips() {
    let mut reg = new_registry();
    let (id1, ip1, _) = reg.register("a".into(), "pk1".into(), T0).unwrap();
    let (id2, ip2, _) = reg.register("b".into(), "pk2".into(), T0).unwrap();
    assert!(id1.starts_with("node-"));
    assert_ne!(id1, id2);
    assert_eq!(ip1, "10.13.0.1");
    assert_eq!(ip2, "10.13.0.2");
}

#[test]
fn validate_session_correct() {
    let mut reg = new_registry();
    let (id, _, tok) = reg.register("a".into(), "pk1".into(), T0).unwrap();
    assert!(reg.validate_session(&id, &tok));
}

#[test]
fn validate_session_wrong_token() {
    let mut reg = new_registry();
    let (id, _, _) = reg.register("a".into(), "pk1".into(), T0).unwrap();
    assert!(!reg.validate_session(&id, "wrong"));
}

#[test]
fn validate_session_unknown_node() {
    let reg = new_registry();
    assert!(!reg.validate_session("nonexistent", "any"));
}

#[test]
fn heartbeat_refreshes() {
    let mut reg = new_registry();
    let (id, _, _) = reg.register("a".into(), "pk1".into(), T0 - 61).unwrap();

    // The node has been silent for 61 seconds.
    reg.heartbeat(&id, T0);
    let peer = reg.get_peer(&id).unwrap();
    assert!(peer.connected);
    // The heartbeat is recent: a reaping pass a few seconds later keeps the node online.
    reg.reap_stale(T0 + 4);
    assert!(reg.get_peer(&id).unwrap().connected);
}

#[test]
fn reap_stale_marks_offline() {
    let mut reg = new_registry();
    let (id, _, _) = reg.register("a".into(), "pk1".into(), T0 - 61).unwrap();

    reg.reap_stale(T0);
    let peer = reg.get_peer(&id).unwrap();
    assert!(!peer.connected);
}

#[test]
fn get_peers_excludes_self() {
    let mut reg = new_registry();
    let (id1, _, _) = reg.register("a".into(), "pk1".into(), T0).unwrap();
    let (id2, _, _) = reg.register("b".into(), "pk2".into(), T0).unwrap();

    let peers = reg.get_peers(Some(&id1));
    assert_eq!(peers.len(), 1);
    assert_eq!(peers[0].node_id, id2);
}

#[test]
fn update_endpoint() {
    let mut reg = new_registry();
    let (id, _, _) = reg.register("a".into(), "pk1".into(), T0).unwrap();
    reg.update_endpoint(&id, "1.2.3.4:51820".into(), T0);
    let peer = reg.get_peer(&id).unwrap();
    assert_eq!(peer.endpoint, "1.2.3.4:51820");
}

#[test]
fn relay_addr() {
    let reg = new_registry();
    assert_eq!(reg.relay_addr(), "127.0.0.1:9091");
}

#[test]
fn ip_recycled_after_remove() {
    let mut reg = new_registry();
    let (id1, ip1, _) = reg.register("a".into(), "pk1".into(), T0).unwrap();
    assert_eq!(ip1, "10.13.0.1");

    reg.remove_node(&id1);

    let (_, ip2, _) = reg.register("b".into(), "pk2".into(), T0).unwrap();
    assert_eq!(ip2, "10.13.0.1");
}

#[test]
fn persistence_across_restart() {
    let db = rusqlite::Connection::open_in_memory().unwrap();
    db.execute_batch(
        "CREATE TABLE IF NOT EXISTS nodes (
            node_id TEXT PRIMARY KEY,
            name TEXT NOT NULL,
            vpn_ip TEXT NOT NULL,
            public_key TEXT NOT NULL,
            endpoint TEXT NOT NULL DEFAULT '',
            session_token TEXT NOT NULL,
            connected INTEGER NOT NULL DEFAULT 1,
            last_heartbeat INTEGER NOT NULL DEFAULT 0
        );",
    )
    .unwrap();

    let mut reg1 = new_registry();
    let handled = handle_message(
        &mut reg1,
        ControlMessage::Register { name: "test".into(), public_key: "pk".into() },
        T0,
    )
    .unwrap();
    let (id, tok) = match handled.reply {
        ControlMessage::RegisterOk { node_id, session_token, .. } => (node_id, session_token),
        other => panic!("unexpected reply {:?}", other),
    };
    // The change the registration reports is what the database stores.
    match handled.change {
        StoreChange::NodeRegistered { node_id, name, vpn_ip, public_key, session_token, last_heartbeat } => {
            db.execute(
                "INSERT INTO nodes (node_id, name, vpn_ip, public_key, session_token, connected, last_heartbeat) VALUES (?1, ?2, ?3, ?4, ?5, 1, ?6)",
                (node_id, name, vpn_ip, public_key, session_token, last_heartbeat),
            )
            .unwrap();
        }
        other => panic!("unexpected change {:?}", other),
    }

    let count: i64 = db
        .query_row("SELECT COUNT(*) FROM nodes WHERE node_id = ?1", (&id,), |row| row.get(0))
        .unwrap();
    assert_eq!(count, 1);
    assert!(reg1.validate_session(&id, &tok));

    // A restarted server loads the stored nodes back.
    let mut reg2 = new_registry();
    let mut stmt = db
        .prepare("SELECT node_id, name, vpn_ip, public_key, endpoint, session_token, connected, last_heartbeat FROM nodes")
        .unwrap();
    let rows = stmt
        .query_map([], |row| {
            Ok(NodeEntry {
                info: PeerInfo {
                    node_id: row.get(0)?,
                    name: row.get(1)?,
                    vpn_ip: row.get(2)?,
                    public_key: row.get(3)?,
                    endpoint: row.get(4)?,
                    connected: row.get(6)?,
                },
                session_token: row.get(5)?,
                last_heartbeat: row.get(7)?,
            })
        })
        .unwrap();
    for row in rows {
        reg2.insert_node(row.unwrap());
    }
    assert!(reg2.validate_session(&id, &tok));
}

#[test]
fn acl_no_rules_allows_all() {
    let mut reg = new_registry();
    let (id1, _, _) = reg.register("a".into(), "pk1".into(), T0).unwrap();
    let (_, _, _) = reg.register("b".into(), "pk2".into(), T0).unwrap();
    let peers = reg.get_peers(Some(&id1));
    assert_eq!(peers.len(), 1);
}

#[test]
fn acl_deny_by_default() {
    let mut reg = new_registry();
    let (id1, _, _) = reg.register("a".into(), "pk1".into(), T0).unwrap();
    let (_, _, _) = reg.register("b".into(), "pk2".into(), T0).unwrap();
    reg.add_rule("admin", "dev");
    let peers = reg.get_peers(Some(&id1));
    assert!(peers.is_empty());
}

#[test]
fn acl_group_visibility() {
    let mut reg = new_registry();
    let (id1, _, _) = reg.register("a".into(), "pk1".into(), T0).unwrap();
    let (id2, _, _) = reg.register("b".into(), "pk2".into(), T0).unwrap();
    let (id3, _, _) = reg.register("c".into(), "pk3".into(), T0).unwrap();

    reg.add_group(&id1, "admin");
    reg.add_group(&id2, "dev");
    reg.add_group(&id3, "db");

    reg.add_rule("admin", "dev");

    let peers = reg.get_peers(Some(&id1));
    assert_eq!(peers.len(), 1);
    assert_eq!(peers[0].node_id, id2);

    let peers = reg.get_peers(Some(&id2));
    assert!(peers.is_empty());
}

#[test]
fn acl_multi_group() {
    let mut reg = new_registry();
    let (id1, _, _) = reg.register("a".into(), "pk1".into(), T0).unwrap();
    let (id2, _, _) = reg.register("b".into(), "pk2".into(), T0).unwrap();
    let (id3, _, _) = reg.register("c".into(), "pk3".into(), T0).unwrap();

    reg.add_group(&id1, "admin");
    reg.add_group(&id2, "dev");
    reg.add_group(&id3, "db");

    reg.add_rule("admin", "dev");
    reg.add_rule("admin", "db");

    let peers = reg.get_peers(Some(&id1));
    assert_eq!(peers.len(), 2);
}

// Further cases of the registry's rules.

#[test]
fn node_ids_and_tokens_are_hex() {
    let mut reg = new_registry();
    let (id, _, tok) = reg.register("a".into(), "pk1".into(), T0).unwrap();
    assert_eq!(id.len(), 21);
    assert!(id[5..].chars().all(|c| c.is_ascii_hexdigit() && !c.is_ascii_uppercase()));
    assert_eq!(tok.len(), 16);
    assert!(tok.chars().all(|c| c.is_ascii_hexdigit() && !c.is_ascii_uppercase()));
}

#[test]
fn registration_fills_lowest_gap() {
    let mut reg = new_registry();
    let (id1, _, _) = reg.register("a".into(), "pk1".into(), T0).unwrap();
    let (_, _, _) = reg.register("b".into(), "pk2".into(), T0).unwrap();
    let (_, ip3, _) = reg.register("c".into(), "pk3".into(), T0).unwrap();
    assert_eq!(ip3, "10.13.0.3");
    reg.remove_node(&id1);
    let (_, ip4, _) = reg.register("d".into(), "pk4".into(), T0).unwrap();
    assert_eq!(ip4, "10.13.0.1");
    let (_, ip5, _) = reg.register("e".into(), "pk5".into(), T0).unwrap();
    assert_eq!(ip5, "10.13.0.4");
}

#[test]
fn address_pool_rolls_over_to_next_octet() {
    let mut reg = new_registry();
    for k in 0..255u32 {
        reg.insert_node(NodeEntry {
            info: PeerInfo {
                node_id: format!("node-{}", k),
                name: String::new(),
                vpn_ip: format!("10.13.0.{}", k + 1),
                public_key: String::new(),
                endpoint: String::new(),
                connected: true,
            },
            session_token: String::new(),
            last_heartbeat: T0,
        });
    }
    // 10.13.1.0 is a host address of 10.13.0.0/16 and comes next.
    assert_eq!(reg.next_ip().unwrap(), "10.13.1.0");
    let (_, ip, _) = reg.register("x".into(), "pk".into(), T0).unwrap();
    assert_eq!(ip, "10.13.1.0");
    assert_eq!(reg.next_ip().unwrap(), "10.13.1.1");
}

#[test]
fn heartbeat_then_reap_within_a_minute_keeps_node_online() {
    let mut reg = new_registry();
    let (id, _, _) = reg.register("a".into(), "pk1".into(), T0).unwrap();
    reg.heartbeat(&id, T0 + 100);
    reg.reap_stale(T0 + 160);
    assert!(reg.get_peer(&id).unwrap().connected);
    reg.reap_stale(T0 + 161);
    assert!(!reg.get_peer(&id).unwrap().connected);
}

#[test]
fn reap_deletes_after_a_day() {
    let mut reg = new_registry();
    let (id1, _, _) = reg.register("a".into(), "pk1".into(), T0).unwrap();
    let (id2, _, _) = reg.register("b".into(), "pk2".into(), T0).unwrap();
    reg.heartbeat(&id2, T0 + 86_000);
    reg.reap_stale(T0 + 86_400);
    assert!(reg.get_peer(&id1).is_some());
    reg.reap_stale(T0 + 86_401);
    assert!(reg.get_peer(&id1).is_none());
    let peer2 = reg.get_peer(&id2).unwrap();
    assert!(!peer2.connected);
}

#[test]
fn update_endpoint_unknown_node_changes_nothing() {
    let mut reg = new_registry();
    let (id, _, _) = reg.register("a".into(), "pk1".into(), T0).unwrap();
    reg.update_endpoint("node-unknown", "9.9.9.9:1".into(), T0);
    assert_eq!(reg.get_peer(&id).unwrap().endpoint, "");
    assert!(reg.get_peer("node-unknown").is_none());
}

#[test]
fn acl_lists_are_sorted_and_deduplicated() {
    let mut reg = new_registry();
    reg.add_group("node-b", "dev");
    reg.add_group("node-a", "ops");
    reg.add_group("node-a", "dev");
    reg.add_group("node-a", "dev");
    reg.add_rule("ops", "dev");
    reg.add_rule("admin", "dev");
    reg.add_rule("admin", "db");
    assert_eq!(
        reg.list_groups(),
        vec![
            ("node-a".to_string(), "dev".to_string()),
            ("node-a".to_string(), "ops".to_string()),
            ("node-b".to_string(), "dev".to_string()),
        ]
    );
    assert_eq!(
        reg.list_rules(),
        vec![
            ("admin".to_string(), "db".to_string()),
            ("admin".to_string(), "dev".to_string()),
            ("ops".to_string(), "dev".to_string()),
        ]
    );
    assert!(reg.has_rules());
    reg.remove_rule("admin", "db");
    reg.remove_rule("admin", "dev");
    reg.remove_rule("ops", "dev");
    assert!(!reg.has_rules());
    reg.remove_group("node-a", "dev");
    assert_eq!(reg.list_groups().len(), 2);
}

#[test]
fn get_peers_without_requester_lists_everyone() {
    let mut reg = new_registry();
    reg.register("a".into(), "pk1".into(), T0).unwrap();
    reg.register("b".into(), "pk2".into(), T0).unwrap();
    let peers = reg.get_peers(None);
    assert_eq!(peers.len(), 2);
    assert_eq!(peers[0].name, "a");
    assert_eq!(peers[1].name, "b");
}

#[test]
fn reap_reports_offline_and_deleted_nodes() {
    let mut reg = new_registry();
    let (old, _, _) = reg.register("old".into(), "pk1".into(), T0).unwrap();
    let (quiet, _, _) = reg.register("quiet".into(), "pk2".into(), T0 + 86_000).unwrap();
    let (fresh, _, _) = reg.register("fresh".into(), "pk3".into(), T0 + 86_450).unwrap();
    let changes = reg.reap_stale(T0 + 86_401);
    assert_eq!(changes.len(), 2);
    assert!(matches!(&changes[0], StoreChange::NodeDeleted { node_id } if *node_id == old));
    assert!(matches!(&changes[1], StoreChange::NodeOffline { node_id } if *node_id == quiet));
    assert!(reg.get_peer(&old).is_none());
    assert!(!reg.get_peer(&quiet).unwrap().connected);
    assert!(reg.get_peer(&fresh).unwrap().connected);
}

#[test]
fn all_nodes_lists_everyone_despite_rules() {
    let mut reg = new_registry();
    let (id1, _, _) = reg.register("a".into(), "pk1".into(), T0).unwrap();
    reg.register("b".into(), "pk2".into(), T0).unwrap();
    reg.add_group(&id1, "admin");
    reg.add_rule("admin", "dev");
    assert!(reg.get_peers(None).is_empty());
    let all = reg.all_nodes();
    assert_eq!(all.len(), 2);
    assert_eq!(all[0].name, "a");
    assert_eq!(all[1].name, "b");
}

#[test]
fn add_then_remove_rule_restores_listing() {
    let mut reg = new_registry();
    reg.add_rule("ops", "dev");
    let before = reg.list_rules();
    reg.add_rule("admin", "db");
    assert_eq!(reg.list_rules().len(), 2);
    reg.remove_rule("admin", "db");
    assert_eq!(reg.list_rules(), before);
    assert!(reg.has_rules());
}

#[test]
fn register_with_given_bytes() {
    let mut reg = new_registry();
    let id = [0x01, 0x23, 0x45, 0x67, 0x89, 0xab, 0xcd, 0xef];
    let tok = [0xff, 0, 0x10, 0, 0, 0, 0, 0x0a];
    let (node_id, ip, token) = reg.register_with("a".into(), "pk1".into(), &id, &tok, T0).unwrap();
    assert_eq!(node_id, "node-0123456789abcdef");
    assert_eq!(token, "ff0010000000000a");
    assert_eq!(ip, "10.13.0.1");
    // The same id again is refused and changes nothing.
    assert_eq!(
        reg.register_with("b".into(), "pk2".into(), &id, &tok, T0),
        Err(RegistryError::NodeIdTaken)
    );
    assert_eq!(reg.all_nodes().len(), 1);
    let other = [9u8; 8];
    let (_, ip2, _) = reg.register_with("b".into(), "pk2".into(), &other, &tok, T0).unwrap();
    assert_eq!(ip2, "10.13.0.2");
}

#[test]
fn clock_fallback() {
    assert_eq!(secs_or_zero(Some(1234)), 1234);
    assert_eq!(secs_or_zero(None), 0);
}
