//! The control server's answer to each request, and the change to its
//! persistent store that the answer implies.

use vstd::prelude::*;
use crate::pairs::{TextPair, pairs_view};
use crate::text::hex_string;
use crate::protocol::{AclGroupEntry, AclRuleEntry, ControlMessage, peers_view};
use crate::registry::{
    Registry, RegistryError, StoreChange, session_valid, pool_exhausted, is_node_id, is_token, is_lowest_free,
    candidate_ip, index_of, lemma_index_of, upsert, fresh_node, node_id_text, random_id_bytes, replayed, visible_peers, endpoint_updated, heartbeat_recorded,
};

verus! {

/// The reply to a request and the change it made.
#[derive(Debug)]
pub struct Handled {
    pub reply: ControlMessage,
    pub change: StoreChange,
}

/// The memberships of a group listing.
pub open spec fn group_entries(v: Seq<AclGroupEntry>) -> Seq<TextPair> {
    v.map_values(|e: AclGroupEntry| (e.node_id@, e.group_name@))
}

/// The rules of a rule listing.
pub open spec fn rule_entries(v: Seq<AclRuleEntry>) -> Seq<TextPair> {
    v.map_values(|e: AclRuleEntry| (e.from_group@, e.to_group@))
}

/// Nothing in the registry changed.
pub open spec fn unchanged(a: &Registry, b: &Registry) -> bool {
    &&& b.entries() == a.entries()
    &&& b.group_table() == a.group_table()
    &&& b.rule_table() == a.rule_table()
    &&& b.relay() == a.relay()
}

/// Only the nodes changed.
pub open spec fn tables_kept(a: &Registry, b: &Registry) -> bool {
    &&& b.group_table() == a.group_table()
    &&& b.rule_table() == a.rule_table()
    &&& b.relay() == a.relay()
}

/// The outcome of a request that checks a session: with a valid session
/// `on_valid` holds, otherwise nothing changed and the reply is `Pong`.
pub open spec fn checked(valid: bool, a: &Registry, b: &Registry, h: Handled, on_valid: bool) -> bool {
    if valid {
        on_valid
    } else {
        unchanged(a, b) && h.reply is Pong && h.change is Unchanged
    }
}

fn group_listing(v: Vec<(String, String)>) -> (r: Vec<AclGroupEntry>)
    ensures
        group_entries(r@) == pairs_view(v@),
{
    let mut r: Vec<AclGroupEntry> = Vec::new();
    let mut i: usize = 0;
    while i < v.len()
        invariant
            i <= v@.len(),
            group_entries(r@) == pairs_view(v@).take(i as int),
        decreases v.len() - i,
    {
        let ghost prev = r@;
        r.push(AclGroupEntry { node_id: v[i].0.clone(), group_name: v[i].1.clone() });
        assert(group_entries(r@) =~= group_entries(prev).push(pairs_view(v@)[i as int]));
        assert(pairs_view(v@).take(i as int + 1) =~= pairs_view(v@).take(i as int).push(pairs_view(v@)[i as int]));
        i = i + 1;
    }
    assert(pairs_view(v@).take(i as int) =~= pairs_view(v@));
    r
}

fn rule_listing(v: Vec<(String, String)>) -> (r: Vec<AclRuleEntry>)
    ensures
        rule_entries(r@) == pairs_view(v@),
{
    let mut r: Vec<AclRuleEntry> = Vec::new();
    let mut i: usize = 0;
    while i < v.len()
        invariant
            i <= v@.len(),
            rule_entries(r@) == pairs_view(v@).take(i as int),
        decreases v.len() - i,
    {
        let ghost prev = r@;
        r.push(AclRuleEntry { from_group: v[i].0.clone(), to_group: v[i].1.clone() });
        assert(rule_entries(r@) =~= rule_entries(prev).push(pairs_view(v@)[i as int]));
        assert(pairs_view(v@).take(i as int + 1) =~= pairs_view(v@).take(i as int).push(pairs_view(v@)[i as int]));
        i = i + 1;
    }
    assert(pairs_view(v@).take(i as int) =~= pairs_view(v@));
    r
}

fn pong() -> (h: Handled)
    ensures
        h.reply is Pong,
        h.change is Unchanged,
{
    Handled { reply: ControlMessage::Pong, change: StoreChange::Unchanged }
}

/// What a handled request gives, from the registry `before` to the
/// registry `after` at time `now`: a registration fails exactly when no
/// address is free, or (with a free address) when the id drawn is taken,
/// and otherwise registers a fresh node on the lowest free address; every
/// other request is honoured only with a valid session and answered `Pong`
/// otherwise; messages that only the server sends are answered `Pong`.
pub open spec fn answered(before: Registry, after: Registry, msg: ControlMessage, now: u64, r: Result<Handled, RegistryError>) -> bool {
    match msg {
        ControlMessage::Register { name, public_key } => {
            &&& (r == Err::<Handled, RegistryError>(RegistryError::AddressSpaceExhausted)) <==> pool_exhausted(before.entries())
            &&& (r == Err::<Handled, RegistryError>(RegistryError::NodeIdTaken)) ==> !pool_exhausted(before.entries()) &&
                exists|i: int| 0 <= i < before.entries().len() && is_node_id(#[trigger] before.entries()[i].info.node_id)
            &&& r matches Ok(h) ==> {
                &&& h.reply matches ControlMessage::RegisterOk { node_id, vpn_ip, session_token }
                &&& index_of(before.entries(), node_id@) < 0
                &&& is_node_id(node_id@)
                &&& is_token(session_token@)
                &&& (exists|k: int| is_lowest_free(before.entries(), k) && vpn_ip@ == candidate_ip(k))
                &&& after.entries() == upsert(before.entries(), fresh_node(node_id@, name@, vpn_ip@, public_key@, session_token@, now))
                &&& tables_kept(&before, &after)
                &&& h.change matches StoreChange::NodeRegistered { node_id: n2, name: m2, vpn_ip: v2, public_key: p2, session_token: s2, last_heartbeat: t2 }
                &&& n2@ == node_id@ && m2@ == name@ && v2@ == vpn_ip@ && p2@ == public_key@ && s2@ == session_token@ && t2 == now
            }
        },
        ControlMessage::GetPeers { node_id, session_token } => r matches Ok(h) && unchanged(&before, &after) && h.change is Unchanged && if session_valid(before.entries(), node_id@, session_token@) {
            h.reply matches ControlMessage::PeerList { peers } && peers_view(peers@) == visible_peers(before.group_table(), before.rule_table(), node_id@, before.entries())
        } else {
            h.reply is Pong
        },
        ControlMessage::UpdateEndpoint { node_id, session_token, public_addr } => r matches Ok(h) && h.reply is Pong && checked(session_valid(before.entries(), node_id@, session_token@), &before, &after, h, {
            &&& after.entries() == endpoint_updated(before.entries(), node_id@, public_addr@, now)
            &&& tables_kept(&before, &after)
            &&& h.change matches StoreChange::EndpointUpdated { node_id: n2, endpoint: e2, last_heartbeat: t2 }
            &&& n2@ == node_id@ && e2@ == public_addr@ && t2 == now
        }),
        ControlMessage::RequestRelay { node_id, session_token, target_id } => r matches Ok(h) && unchanged(&before, &after) && h.change is Unchanged && if session_valid(before.entries(), node_id@, session_token@) {
            h.reply matches ControlMessage::RelayAssigned { relay_addr, target_id: t } && relay_addr@ == before.relay() && (t matches Some(t2) && t2@ == target_id@)
        } else {
            h.reply is Pong
        },
        ControlMessage::Ping { node_id, session_token } => r matches Ok(h) && h.reply is Pong && checked(session_valid(before.entries(), node_id@, session_token@), &before, &after, h, {
            &&& after.entries() == heartbeat_recorded(before.entries(), node_id@, now)
            &&& tables_kept(&before, &after)
            &&& h.change matches StoreChange::HeartbeatRecorded { node_id: n2, last_heartbeat: t2 }
            &&& n2@ == node_id@ && t2 == now
        }),
        ControlMessage::AclAddGroup { node_id, session_token, target_node_id, group_name } => r matches Ok(h) && h.reply is Pong && checked(session_valid(before.entries(), node_id@, session_token@), &before, &after, h, {
            &&& (forall|q: TextPair| #[trigger] after.group_table().contains(q) <==> (before.group_table().contains(q) || q == (target_node_id@, group_name@)))
            &&& after.entries() == before.entries() && after.rule_table() == before.rule_table()
            &&& h.change matches StoreChange::GroupAdded { node_id: n2, group_name: g2 }
            &&& n2@ == target_node_id@ && g2@ == group_name@
        }),
        ControlMessage::AclRemoveGroup { node_id, session_token, target_node_id, group_name } => r matches Ok(h) && h.reply is Pong && checked(session_valid(before.entries(), node_id@, session_token@), &before, &after, h, {
            &&& (forall|q: TextPair| #[trigger] after.group_table().contains(q) <==> (before.group_table().contains(q) && q != (target_node_id@, group_name@)))
            &&& after.entries() == before.entries() && after.rule_table() == before.rule_table()
            &&& h.change matches StoreChange::GroupRemoved { node_id: n2, group_name: g2 }
            &&& n2@ == target_node_id@ && g2@ == group_name@
        }),
        ControlMessage::AclAddRule { node_id, session_token, from_group, to_group } => r matches Ok(h) && h.reply is Pong && checked(session_valid(before.entries(), node_id@, session_token@), &before, &after, h, {
            &&& (forall|q: TextPair| #[trigger] after.rule_table().contains(q) <==> (before.rule_table().contains(q) || q == (from_group@, to_group@)))
            &&& after.entries() == before.entries() && after.group_table() == before.group_table()
            &&& h.change matches StoreChange::RuleAdded { from_group: f2, to_group: t2 }
            &&& f2@ == from_group@ && t2@ == to_group@
        }),
        ControlMessage::AclRemoveRule { node_id, session_token, from_group, to_group } => r matches Ok(h) && h.reply is Pong && checked(session_valid(before.entries(), node_id@, session_token@), &before, &after, h, {
            &&& (forall|q: TextPair| #[trigger] after.rule_table().contains(q) <==> (before.rule_table().contains(q) && q != (from_group@, to_group@)))
            &&& after.entries() == before.entries() && after.group_table() == before.group_table()
            &&& h.change matches StoreChange::RuleRemoved { from_group: f2, to_group: t2 }
            &&& f2@ == from_group@ && t2@ == to_group@
        }),
        ControlMessage::AclList { node_id, session_token } => r matches Ok(h) && unchanged(&before, &after) && h.change is Unchanged && if session_valid(before.entries(), node_id@, session_token@) {
            h.reply matches ControlMessage::AclListResponse { groups, rules } && group_entries(groups@) == before.group_table() && rule_entries(rules@) == before.rule_table()
        } else {
            h.reply is Pong
        },
        _ => r matches Ok(h) && h.reply is Pong && h.change is Unchanged && unchanged(&before, &after),
    }
}

/// What a registration answers for the drawn bytes: `NodeIdTaken` exactly
/// when an address is free and a node holds the id made of `id_bytes`;
/// on success that id and the token made of `token_bytes`.
pub open spec fn registration_drawn(before: Registry, r: Result<Handled, RegistryError>, id_bytes: Seq<u8>, token_bytes: Seq<u8>) -> bool {
    &&& (r == Err::<Handled, RegistryError>(RegistryError::NodeIdTaken))
        <==> (!pool_exhausted(before.entries()) && index_of(before.entries(), node_id_text(id_bytes)) >= 0)
    &&& r matches Ok(h) ==> (h.reply matches ControlMessage::RegisterOk { node_id, session_token, .. }
        && node_id@ == node_id_text(id_bytes) && session_token@ == hex_string(token_bytes))
}

/// Answers one request received at `now`, as [`answered`] says; a
/// registration draws eight random bytes for the node id and eight for the
/// session token.
pub fn handle_message(reg: &mut Registry, msg: ControlMessage, now: u64) -> (r: Result<Handled, RegistryError>)
    requires
        old(reg).wf(),
    ensures
        final(reg).wf(),
        final(reg).relay() == old(reg).relay(),
        (r is Err) ==> (msg is Register && unchanged(old(reg), final(reg))),
        answered(*old(reg), *final(reg), msg, now, r),
        r matches Ok(h) ==> final(reg).entries() == replayed(old(reg).entries(), h.change),
{
    let id_bytes = random_id_bytes();
    let token_bytes = random_id_bytes();
    handle_message_with(reg, msg, now, &id_bytes, &token_bytes)
}

/// Answers one request received at `now`, as [`answered`] says, where a
/// registration takes its node id from `id_bytes` and its token from
/// `token_bytes`, as [`registration_drawn`] says.
pub fn handle_message_with(reg: &mut Registry, msg: ControlMessage, now: u64, id_bytes: &[u8; 8], token_bytes: &[u8; 8]) -> (r: Result<Handled, RegistryError>)
    requires
        old(reg).wf(),
    ensures
        final(reg).wf(),
        final(reg).relay() == old(reg).relay(),
        (r is Err) ==> (msg is Register && unchanged(old(reg), final(reg))),
        answered(*old(reg), *final(reg), msg, now, r),
        msg is Register ==> registration_drawn(*old(reg), r, id_bytes@, token_bytes@),
        r matches Ok(h) ==> final(reg).entries() == replayed(old(reg).entries(), h.change),
{
    match msg {
        ControlMessage::Register { name, public_key } => {
            let name_copy = name.clone();
            let key_copy = public_key.clone();
            let ghost before = reg.entries();
            let ghost drawn = node_id_text(id_bytes@);
            proof {
                lemma_index_of(before, drawn);
                if index_of(before, drawn) >= 0 {
                    assert(is_node_id(before[index_of(before, drawn)].info.node_id)) by {
                        assert(id_bytes@.len() == 8);
                    }
                }
            }
            match reg.register_with(name, public_key, id_bytes, token_bytes, now) {
                Ok((node_id, vpn_ip, session_token)) => {
                    let change = StoreChange::NodeRegistered {
                        node_id: node_id.clone(),
                        name: name_copy,
                        vpn_ip: vpn_ip.clone(),
                        public_key: key_copy,
                        session_token: session_token.clone(),
                        last_heartbeat: now,
                    };
                    Ok(Handled { reply: ControlMessage::RegisterOk { node_id, vpn_ip, session_token }, change })
                },
                Err(e) => Err(e),
            }
        },
        ControlMessage::GetPeers { node_id, session_token } => {
            if !reg.validate_session(node_id.as_str(), session_token.as_str()) {
                Ok(pong())
            } else {
                let peers = reg.get_peers(Some(node_id.as_str()));
                Ok(Handled { reply: ControlMessage::PeerList { peers }, change: StoreChange::Unchanged })
            }
        },
        ControlMessage::UpdateEndpoint { node_id, session_token, public_addr } => {
            if reg.validate_session(node_id.as_str(), session_token.as_str()) {
                let endpoint = public_addr.clone();
                reg.update_endpoint(node_id.as_str(), public_addr, now);
                Ok(Handled {
                    reply: ControlMessage::Pong,
                    change: StoreChange::EndpointUpdated { node_id, endpoint, last_heartbeat: now },
                })
            } else {
                Ok(pong())
            }
        },
        ControlMessage::RequestRelay { node_id, session_token, target_id } => {
            if reg.validate_session(node_id.as_str(), session_token.as_str()) {
                let relay_addr = reg.relay_addr().to_owned();
                Ok(Handled {
                    reply: ControlMessage::RelayAssigned { relay_addr, target_id: Some(target_id) },
                    change: StoreChange::Unchanged,
                })
            } else {
                Ok(pong())
            }
        },
        ControlMessage::Ping { node_id, session_token } => {
            if reg.validate_session(node_id.as_str(), session_token.as_str()) {
                reg.heartbeat(node_id.as_str(), now);
                Ok(Handled { reply: ControlMessage::Pong, change: StoreChange::HeartbeatRecorded { node_id, last_heartbeat: now } })
            } else {
                Ok(pong())
            }
        },
        ControlMessage::AclAddGroup { node_id, session_token, target_node_id, group_name } => {
            if reg.validate_session(node_id.as_str(), session_token.as_str()) {
                reg.add_group(target_node_id.as_str(), group_name.as_str());
                Ok(Handled { reply: ControlMessage::Pong, change: StoreChange::GroupAdded { node_id: target_node_id, group_name } })
            } else {
                Ok(pong())
            }
        },
        ControlMessage::AclRemoveGroup { node_id, session_token, target_node_id, group_name } => {
            if reg.validate_session(node_id.as_str(), session_token.as_str()) {
                reg.remove_group(target_node_id.as_str(), group_name.as_str());
                Ok(Handled { reply: ControlMessage::Pong, change: StoreChange::GroupRemoved { node_id: target_node_id, group_name } })
            } else {
                Ok(pong())
            }
        },
        ControlMessage::AclAddRule { node_id, session_token, from_group, to_group } => {
            if reg.validate_session(node_id.as_str(), session_token.as_str()) {
                reg.add_rule(from_group.as_str(), to_group.as_str());
                Ok(Handled { reply: ControlMessage::Pong, change: StoreChange::RuleAdded { from_group, to_group } })
            } else {
                Ok(pong())
            }
        },
        ControlMessage::AclRemoveRule { node_id, session_token, from_group, to_group } => {
            if reg.validate_session(node_id.as_str(), session_token.as_str()) {
                reg.remove_rule(from_group.as_str(), to_group.as_str());
                Ok(Handled { reply: ControlMessage::Pong, change: StoreChange::RuleRemoved { from_group, to_group } })
            } else {
                Ok(pong())
            }
        },
        ControlMessage::AclList { node_id, session_token } => {
            if reg.validate_session(node_id.as_str(), session_token.as_str()) {
                let groups = group_listing(reg.list_groups());
                let rules = rule_listing(reg.list_rules());
                Ok(Handled { reply: ControlMessage::AclListResponse { groups, rules }, change: StoreChange::Unchanged })
            } else {
                Ok(pong())
            }
        },
        _ => Ok(pong()),
    }
}

} // verus!
