//! Messages exchanged between nodes and the control server, and the
//! records they carry.

use vstd::prelude::*;

verus! {

/// Information about a peer in the network.
#[derive(Debug, Clone)]
pub struct PeerInfo {
    pub node_id: String,
    pub name: String,
    pub vpn_ip: String,
    pub public_key: String,
    pub endpoint: String,
    pub connected: bool,
}

/// The characters of a [`PeerInfo`].
pub struct PeerInfoView {
    pub node_id: Seq<char>,
    pub name: Seq<char>,
    pub vpn_ip: Seq<char>,
    pub public_key: Seq<char>,
    pub endpoint: Seq<char>,
    pub connected: bool,
}

impl View for PeerInfo {
    type V = PeerInfoView;

    open spec fn view(&self) -> PeerInfoView {
        PeerInfoView {
            node_id: self.node_id@,
            name: self.name@,
            vpn_ip: self.vpn_ip@,
            public_key: self.public_key@,
            endpoint: self.endpoint@,
            connected: self.connected,
        }
    }
}

/// The views of a list of peers.
pub open spec fn peers_view(v: Seq<PeerInfo>) -> Seq<PeerInfoView> {
    v.map_values(|p: PeerInfo| p@)
}

impl PeerInfo {
    /// A copy with the same contents.
    pub fn duplicate(&self) -> (r: PeerInfo)
        ensures
            r@ == self@,
    {
        PeerInfo {
            node_id: self.node_id.clone(),
            name: self.name.clone(),
            vpn_ip: self.vpn_ip.clone(),
            public_key: self.public_key.clone(),
            endpoint: self.endpoint.clone(),
            connected: self.connected,
        }
    }
}

/// One membership of a node in an access-control group.
#[derive(Debug, Clone)]
pub struct AclGroupEntry {
    pub node_id: String,
    pub group_name: String,
}

/// One access-control rule: members of `from_group` see members of `to_group`.
#[derive(Debug, Clone)]
pub struct AclRuleEntry {
    pub from_group: String,
    pub to_group: String,
}

/// Messages sent between nodes and the control server, one per line.
#[derive(Debug, Clone)]
pub enum ControlMessage {
    /// Node to server: register a new node.
    Register { name: String, public_key: String },
    /// Server to node: registration confirmed, with assigned address and session token.
    RegisterOk { node_id: String, vpn_ip: String, session_token: String },
    /// Node to server: request the current peer list.
    GetPeers { node_id: String, session_token: String },
    /// Server to node: the peer list.
    PeerList { peers: Vec<PeerInfo> },
    /// Node to server: report its current public endpoint.
    UpdateEndpoint { node_id: String, session_token: String, public_addr: String },
    /// Node to server: request a relay for a peer connection.
    RequestRelay { node_id: String, session_token: String, target_id: String },
    /// Server to node: the relay address to use.
    RelayAssigned { relay_addr: String, target_id: Option<String> },
    /// Server to node: try hole punching with a peer.
    PunchRequest { peer_id: String, peer_public_key: String, peer_endpoint: String },
    /// Heartbeat.
    Ping { node_id: String, session_token: String },
    /// Reply to a heartbeat, and the generic acknowledgement.
    Pong,
    /// Node to server: add a node to a group.
    AclAddGroup { node_id: String, session_token: String, target_node_id: String, group_name: String },
    /// Node to server: remove a node from a group.
    AclRemoveGroup { node_id: String, session_token: String, target_node_id: String, group_name: String },
    /// Node to server: add a rule.
    AclAddRule { node_id: String, session_token: String, from_group: String, to_group: String },
    /// Node to server: remove a rule.
    AclRemoveRule { node_id: String, session_token: String, from_group: String, to_group: String },
    /// Node to server: list all groups and rules.
    AclList { node_id: String, session_token: String },
    /// Server to node: the groups and rules.
    AclListResponse { groups: Vec<AclGroupEntry>, rules: Vec<AclRuleEntry> },
}

} // verus!
