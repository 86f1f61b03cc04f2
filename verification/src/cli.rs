//! What the command-line client computes: key encoding, registration,
//! the relay registration and the plan for each peer, access-control
//! requests and their listings, and the lines it prints.

use vstd::prelude::*;
use crate::text::{push_char, push_decimal, decimal, texts, utf8_lossy, decode_lossy, text_chars};
use crate::protocol::{AclGroupEntry, AclRuleEntry, ControlMessage, PeerInfo, PeerInfoView};
use crate::config::NodeConfig;
use crate::net::{SocketAddress, needs_local, local_text, relay_endpoint_text};

verus! {

/// The base64 digit for a value below 64 (`A-Z`, `a-z`, `0-9`, `+`, `/`).
pub open spec fn b64_digit(v: int) -> char {
    if v < 26 {
        (65 + v) as char
    } else if v < 52 {
        (97 + v - 26) as char
    } else if v < 62 {
        (48 + v - 52) as char
    } else if v == 62 {
        '+'
    } else {
        '/'
    }
}

/// Standard base64 with `=` padding: each three bytes become four digits,
/// a final one or two bytes become two or three digits and padding.
pub open spec fn base64(data: Seq<u8>) -> Seq<char>
    decreases data.len(),
{
    if data.len() == 0 {
        Seq::empty()
    } else {
        let b0 = data[0] as int;
        let b1 = if data.len() > 1 { data[1] as int } else { 0 };
        let b2 = if data.len() > 2 { data[2] as int } else { 0 };
        let t = b0 * 65536 + b1 * 256 + b2;
        let chunk = seq![
            b64_digit((t / 262144) % 64),
            b64_digit((t / 4096) % 64),
            if data.len() > 1 { b64_digit((t / 64) % 64) } else { '=' },
            if data.len() > 2 { b64_digit(t % 64) } else { '=' },
        ];
        if data.len() <= 3 {
            chunk
        } else {
            chunk + base64(data.skip(3))
        }
    }
}

fn b64_char(v: u32) -> (c: char)
    requires
        v < 64,
    ensures
        c == b64_digit(v as int),
{
    if v < 26 {
        (65 + v as u8) as char
    } else if v < 52 {
        (97 + (v - 26) as u8) as char
    } else if v < 62 {
        (48 + (v - 52) as u8) as char
    } else if v == 62 {
        '+'
    } else {
        '/'
    }
}

/// Encodes bytes as standard base64 with padding.
pub fn base64_encode(data: &[u8]) -> (s: String)
    ensures
        s@ == base64(data@),
{
    let mut result = String::new();
    let mut i: usize = 0;
    assert(data@.skip(0) =~= data@);
    while i < data.len()
        invariant
            i <= data@.len(),
            result@ + base64(data@.skip(i as int)) == base64(data@),
        decreases data.len() - i,
    {
        let n = data.len() - i;
        let b0 = data[i] as u32;
        let b1: u32 = if n > 1 { data[i + 1] as u32 } else { 0 };
        let b2: u32 = if n > 2 { data[i + 2] as u32 } else { 0 };
        let triple: u32 = b0 * 65536 + b1 * 256 + b2;
        let ghost rest = data@.skip(i as int);
        let ghost before = result@;
        assert(rest[0] == data@[i as int]);
        assert(n > 1 ==> rest[1] == data@[i as int + 1]);
        assert(n > 2 ==> rest[2] == data@[i as int + 2]);
        push_char(&mut result, b64_char((triple / 262144) % 64));
        push_char(&mut result, b64_char((triple / 4096) % 64));
        if n > 1 {
            push_char(&mut result, b64_char((triple / 64) % 64));
        } else {
            push_char(&mut result, '=');
        }
        if n > 2 {
            push_char(&mut result, b64_char(triple % 64));
        } else {
            push_char(&mut result, '=');
        }
        let step: usize = if n > 3 { 3 } else { n };
        proof {
            let t = (rest[0] as int) * 65536 + (if rest.len() > 1 { rest[1] as int } else { 0 }) * 256 + (if rest.len() > 2 { rest[2] as int } else { 0 });
            assert(t == triple as int);
            let chunk = seq![
                b64_digit((t / 262144) % 64),
                b64_digit((t / 4096) % 64),
                if rest.len() > 1 { b64_digit((t / 64) % 64) } else { '=' },
                if rest.len() > 2 { b64_digit(t % 64) } else { '=' },
            ];
            assert(result@ =~= before + chunk);
            if rest.len() <= 3 {
                assert(base64(rest) == chunk);
                assert(data@.skip(i as int + step as int) =~= Seq::<u8>::empty());
            } else {
                assert(base64(rest) == chunk + base64(rest.skip(3)));
                assert(rest.skip(3) =~= data@.skip(i as int + 3));
            }
            assert(result@ + base64(data@.skip(i as int + step as int)) =~= before + base64(rest));
        }
        i = i + step;
    }
    assert(data@.skip(i as int) =~= Seq::<u8>::empty());
    assert(result@ + Seq::<char>::empty() =~= result@);
    result
}

/// The registration a node sends the relay: `REGISTER:<my_id>:<peer_id>`.
pub open spec fn relay_registration(my_id: Seq<char>, peer_id: Seq<char>) -> Seq<char> {
    seq!['R', 'E', 'G', 'I', 'S', 'T', 'E', 'R', ':'] + my_id + seq![':'] + peer_id
}

/// Builds `REGISTER:<my_id>:<peer_id>`.
pub fn relay_registration_message(my_id: &str, peer_id: &str) -> (s: String)
    ensures
        s@ == relay_registration(my_id@, peer_id@),
{
    let mut s = String::new();
    push_char(&mut s, 'R');
    push_char(&mut s, 'E');
    push_char(&mut s, 'G');
    push_char(&mut s, 'I');
    push_char(&mut s, 'S');
    push_char(&mut s, 'T');
    push_char(&mut s, 'E');
    push_char(&mut s, 'R');
    push_char(&mut s, ':');
    s.append(my_id);
    push_char(&mut s, ':');
    s.append(peer_id);
    assert(s@ =~= relay_registration(my_id@, peer_id@));
    s
}

/// The relay accepted a registration: its answer starts with `OK`.
pub open spec fn relay_accepted(reply: Seq<u8>) -> bool {
    let text = utf8_lossy(reply);
    text.len() >= 2 && text[0] == 'O' && text[1] == 'K'
}

/// Whether the relay's answer `reply` accepts the registration.
pub fn relay_reply_ok(reply: &[u8]) -> (r: bool)
    ensures
        r == relay_accepted(reply@),
{
    let text = decode_lossy(reply);
    let chars = text_chars(text.as_str());
    chars.len() >= 2 && chars[0] == 'O' && chars[1] == 'K'
}


/// The address range WireGuard accepts from a peer: `<vpn_ip>/32`.
pub fn allowed_ip_for(vpn_ip: &str) -> (s: String)
    ensures
        s@ == vpn_ip@ + "/32"@,
{
    let mut s = vpn_ip.to_owned();
    s.append("/32");
    s
}

/// A port forward of remote `<vpn_ip>:<remote_port>` to this machine: it
/// listens on `127.0.0.1:<local_port>` and connects each client to
/// `<vpn_ip>:<remote_port>`.
pub fn forward_addresses(vpn_ip: &str, remote_port: u16, local_port: u16) -> (r: (String, String))
    ensures
        r.0@ == "127.0.0.1:"@ + decimal(local_port as nat),
        r.1@ == vpn_ip@ + ":"@ + decimal(remote_port as nat),
{
    let mut listen = "127.0.0.1:".to_owned();
    push_decimal(&mut listen, local_port as u64);
    let mut to = vpn_ip.to_owned();
    to.append(":");
    push_decimal(&mut to, remote_port as u64);
    (listen, to)
}

/// How a peer's state reads: `online` or `offline`.
pub open spec fn state_word(connected: bool) -> Seq<char> {
    if connected { "online"@ } else { "offline"@ }
}

/// A peer's line in the status listing:
/// `   - <name> (<vpn_ip>) → <endpoint or unknown> [<state>]`.
pub open spec fn status_line(p: PeerInfoView) -> Seq<char> {
    "   - "@ + p.name + " ("@ + p.vpn_ip + ") → "@ + (if p.endpoint.len() == 0 { "unknown"@ } else { p.endpoint })
        + " ["@ + state_word(p.connected) + "]"@
}

/// A peer's line when connecting: `   - <name> (<vpn_ip>) [<state>]`.
pub open spec fn connect_line(p: PeerInfoView) -> Seq<char> {
    "   - "@ + p.name + " ("@ + p.vpn_ip + ") ["@ + state_word(p.connected) + "]"@
}

fn state_text(connected: bool) -> (s: &'static str)
    ensures
        s@ == state_word(connected),
{
    if connected { "online" } else { "offline" }
}

/// Renders [`status_line`].
pub fn peer_status_line(p: &PeerInfo) -> (s: String)
    ensures
        s@ == status_line(p@),
{
    let mut s = "   - ".to_owned();
    s.append(p.name.as_str());
    s.append(" (");
    s.append(p.vpn_ip.as_str());
    s.append(") → ");
    if p.endpoint.as_str().is_empty() {
        s.append("unknown");
    } else {
        s.append(p.endpoint.as_str());
    }
    s.append(" [");
    s.append(state_text(p.connected));
    s.append("]");
    s
}

/// Renders [`connect_line`].
pub fn peer_connect_line(p: &PeerInfo) -> (s: String)
    ensures
        s@ == connect_line(p@),
{
    let mut s = "   - ".to_owned();
    s.append(p.name.as_str());
    s.append(" (");
    s.append(p.vpn_ip.as_str());
    s.append(") [");
    s.append(state_text(p.connected));
    s.append("]");
    s
}


/// A digit of the base64 alphabet: `A-Z`, `a-z`, `0-9`, `+` or `/`.
pub open spec fn is_b64_char(c: char) -> bool {
    ('A' <= c && c <= 'Z') || ('a' <= c && c <= 'z') || ('0' <= c && c <= '9') || c == '+' || c == '/'
}

/// The number of `=` that close the encoding of `n` bytes.
pub open spec fn b64_padding(n: int) -> int {
    (3 - n % 3) % 3
}

proof fn lemma_b64_digit(v: int)
    requires
        0 <= v < 64,
    ensures
        is_b64_char(b64_digit(v)),
        b64_digit(v) != '=',
{
}

#[verifier::spinoff_prover]
/// The shape of a base64 encoding: four characters for every three bytes
/// begun, digits of the alphabet, and as many `=` at the end as the last
/// group of bytes falls short of three.
pub proof fn lemma_base64_shape(data: Seq<u8>)
    ensures
        base64(data).len() == 4 * ((data.len() + 2) / 3),
        forall|i: int| 0 <= i < base64(data).len() - b64_padding(data.len() as int) ==> is_b64_char(#[trigger] base64(data)[i]),
        forall|i: int| base64(data).len() - b64_padding(data.len() as int) <= i < base64(data).len() ==> #[trigger] base64(data)[i] == '=',
    decreases data.len(),
{
    if data.len() > 0 {
        let b0 = data[0] as int;
        let b1 = if data.len() > 1 { data[1] as int } else { 0 };
        let b2 = if data.len() > 2 { data[2] as int } else { 0 };
        let t = b0 * 65536 + b1 * 256 + b2;
        assert(0 <= t < 16777216);
        assert(0 <= t / 262144 % 64 < 64);
        lemma_b64_digit(t / 262144 % 64);
        lemma_b64_digit(t / 4096 % 64);
        lemma_b64_digit(t / 64 % 64);
        lemma_b64_digit(t % 64);
        let chunk = seq![
            b64_digit((t / 262144) % 64),
            b64_digit((t / 4096) % 64),
            if data.len() > 1 { b64_digit((t / 64) % 64) } else { '=' },
            if data.len() > 2 { b64_digit(t % 64) } else { '=' },
        ];
        if data.len() <= 3 {
            assert(base64(data) == chunk);
        } else {
            let rest = data.skip(3);
            lemma_base64_shape(rest);
            assert(base64(data) == chunk + base64(rest));
            assert((data.len() + 2) / 3 == (rest.len() + 2) / 3 + 1);
            assert(b64_padding(data.len() as int) == b64_padding(rest.len() as int));
            assert forall|i: int| 0 <= i < base64(data).len() - b64_padding(data.len() as int) implies is_b64_char(#[trigger] base64(data)[i]) by {
                if i >= 4 {
                    assert(base64(data)[i] == base64(rest)[i - 4]);
                }
            }
            assert forall|i: int| base64(data).len() - b64_padding(data.len() as int) <= i < base64(data).len() implies #[trigger] base64(data)[i] == '=' by {
                assert(base64(data)[i] == base64(rest)[i - 4]);
            }
        }
    }
}


/// The registration request for a node called `name` with public key
/// `public`: only the public key, base64, goes to the server.
pub fn registration_request(name: &str, public: &[u8; 32]) -> (m: ControlMessage)
    ensures
        m matches ControlMessage::Register { name: n, public_key: k } && n@ == name@ && k@ == base64(public@),
{
    ControlMessage::Register { name: name.to_owned(), public_key: base64_encode(public) }
}

/// The configuration a node keeps after the server's answer `reply` to its
/// registration: `None` unless the answer is `RegisterOk`; otherwise the
/// id, address and token given, the name, the server's address, and the
/// secret key base64.
pub fn registered_config(reply: ControlMessage, name: &str, secret: &[u8; 32], ccs_addr: &str) -> (c: Option<NodeConfig>)
    ensures
        c is Some <==> reply is RegisterOk,
        reply matches ControlMessage::RegisterOk { node_id, vpn_ip, session_token } ==> (c matches Some(cfg) && {
            &&& cfg.node_id@ == node_id@
            &&& cfg.vpn_ip@ == vpn_ip@
            &&& cfg.session_token@ == session_token@
            &&& cfg.name@ == name@
            &&& cfg.private_key@ == base64(secret@)
            &&& cfg.ccs_addr@ == ccs_addr@
        }),
{
    match reply {
        ControlMessage::RegisterOk { node_id, vpn_ip, session_token } => Some(NodeConfig {
            node_id,
            name: name.to_owned(),
            private_key: base64_encode(secret),
            vpn_ip,
            ccs_addr: ccs_addr.to_owned(),
            session_token,
        }),
        _ => None,
    }
}

/// What the node does about one peer once it asked the server for a relay.
#[derive(Debug)]
pub enum PeerPlan {
    /// The server gave no relay: the peer is left out.
    Skip,
    /// The relay address given does not read as a socket address.
    BadRelayAddress,
    /// Add the peer to WireGuard with this key, allowed address and
    /// endpoint, after sending the relay this registration, if any.
    Add { relay_registration: Option<String>, public_key: String, allowed_ip: String, endpoint: String },
}

/// The plan for `peer` given the server's answer `reply` to a relay
/// request, and `relay`, the relay address of that answer read as a socket
/// address where it reads as one: a peer is skipped unless the answer is
/// `RelayAssigned`; the node registers with the relay for the target when
/// the answer names one; WireGuard reaches the peer through the relay (at
/// `127.0.0.1` when the relay address is loopback or unspecified).
pub fn peer_plan(peer: &PeerInfo, my_id: &str, reply: &ControlMessage, relay: Option<SocketAddress>) -> (p: PeerPlan)
    ensures
        !(reply is RelayAssigned) ==> p is Skip,
        reply matches ControlMessage::RelayAssigned { relay_addr, target_id } ==> match relay {
            None => p is BadRelayAddress,
            Some(a) => p matches PeerPlan::Add { relay_registration: reg, public_key, allowed_ip, endpoint } && {
                &&& (match target_id {
                        Some(t) => reg matches Some(m) && m@ == relay_registration(my_id@, t@),
                        None => reg is None,
                    })
                &&& public_key@ == peer.public_key@
                &&& allowed_ip@ == peer.vpn_ip@ + "/32"@
                &&& endpoint@ == (if needs_local(a) { local_text(a.port) } else { relay_addr@ })
            },
        },
{
    match reply {
        ControlMessage::RelayAssigned { relay_addr, target_id } => match relay {
            None => PeerPlan::BadRelayAddress,
            Some(a) => {
                let relay_registration = match target_id {
                    Some(t) => Some(relay_registration_message(my_id, t.as_str())),
                    None => None,
                };
                PeerPlan::Add {
                    relay_registration,
                    public_key: peer.public_key.clone(),
                    allowed_ip: allowed_ip_for(peer.vpn_ip.as_str()),
                    endpoint: relay_endpoint_text(relay_addr.as_str(), a),
                }
            },
        },
        _ => PeerPlan::Skip,
    }
}

/// An access-control command of the client.
#[derive(Debug, Clone)]
pub enum AclCommand {
    AddGroup { node: String, group: String },
    RemoveGroup { node: String, group: String },
    AddRule { from: String, to: String },
    RemoveRule { from: String, to: String },
    List,
}

/// The request that carries `command` for node `node_id` with its session.
pub fn acl_request(command: &AclCommand, node_id: String, session_token: String) -> (m: ControlMessage)
    ensures
        match *command {
            AclCommand::AddGroup { node, group } => m matches ControlMessage::AclAddGroup { node_id: i, session_token: s, target_node_id: n, group_name: g }
                && i@ == node_id@ && s@ == session_token@ && n@ == node@ && g@ == group@,
            AclCommand::RemoveGroup { node, group } => m matches ControlMessage::AclRemoveGroup { node_id: i, session_token: s, target_node_id: n, group_name: g }
                && i@ == node_id@ && s@ == session_token@ && n@ == node@ && g@ == group@,
            AclCommand::AddRule { from, to } => m matches ControlMessage::AclAddRule { node_id: i, session_token: s, from_group: f, to_group: t }
                && i@ == node_id@ && s@ == session_token@ && f@ == from@ && t@ == to@,
            AclCommand::RemoveRule { from, to } => m matches ControlMessage::AclRemoveRule { node_id: i, session_token: s, from_group: f, to_group: t }
                && i@ == node_id@ && s@ == session_token@ && f@ == from@ && t@ == to@,
            AclCommand::List => m matches ControlMessage::AclList { node_id: i, session_token: s } && i@ == node_id@ && s@ == session_token@,
        },
{
    match command {
        AclCommand::AddGroup { node, group } => ControlMessage::AclAddGroup { node_id, session_token, target_node_id: node.clone(), group_name: group.clone() },
        AclCommand::RemoveGroup { node, group } => ControlMessage::AclRemoveGroup { node_id, session_token, target_node_id: node.clone(), group_name: group.clone() },
        AclCommand::AddRule { from, to } => ControlMessage::AclAddRule { node_id, session_token, from_group: from.clone(), to_group: to.clone() },
        AclCommand::RemoveRule { from, to } => ControlMessage::AclRemoveRule { node_id, session_token, from_group: from.clone(), to_group: to.clone() },
        AclCommand::List => ControlMessage::AclList { node_id, session_token },
    }
}

/// The confirmation printed when the server accepts a change.
pub open spec fn acl_done_text(command: AclCommand) -> Seq<char> {
    match command {
        AclCommand::AddGroup { .. } => "Group added."@,
        AclCommand::RemoveGroup { .. } => "Group removed."@,
        AclCommand::AddRule { .. } => "Rule added."@,
        AclCommand::RemoveRule { .. } => "Rule removed."@,
        AclCommand::List => Seq::empty(),
    }
}

fn owned_text(s: &str) -> (r: String)
    ensures
        r@ == s@,
{
    s.to_owned()
}

/// One line of a group listing.
pub open spec fn group_line(e: AclGroupEntry) -> Seq<char> {
    "   "@ + e.node_id@ + " -> "@ + e.group_name@
}

/// One line of a rule listing.
pub open spec fn rule_line(e: AclRuleEntry) -> Seq<char> {
    "   "@ + e.from_group@ + " -> "@ + e.to_group@ + " (allow)"@
}

/// The lines of a group listing.
pub open spec fn group_lines(groups: Seq<AclGroupEntry>) -> Seq<Seq<char>> {
    if groups.len() == 0 {
        seq!["No groups defined."@]
    } else {
        seq!["Groups:"@] + groups.map_values(|e: AclGroupEntry| group_line(e))
    }
}

/// The lines of a rule listing; without rules every node sees every other.
pub open spec fn rule_lines(rules: Seq<AclRuleEntry>) -> Seq<Seq<char>> {
    if rules.len() == 0 {
        seq!["No rules defined (every node sees every other)."@]
    } else {
        seq!["Rules:"@] + rules.map_values(|e: AclRuleEntry| rule_line(e))
    }
}

fn group_listing_lines(groups: &Vec<AclGroupEntry>) -> (v: Vec<String>)
    ensures
        texts(v@) == group_lines(groups@),
{
    let mut v: Vec<String> = Vec::new();
    if groups.len() == 0 {
        v.push(owned_text("No groups defined."));
        assert(texts(v@) =~= group_lines(groups@));
        return v;
    }
    v.push(owned_text("Groups:"));
    let mut i: usize = 0;
    assert(texts(v@) =~= seq!["Groups:"@] + groups@.take(0).map_values(|e: AclGroupEntry| group_line(e)));
    while i < groups.len()
        invariant
            i <= groups@.len(),
            texts(v@) == seq!["Groups:"@] + groups@.take(i as int).map_values(|e: AclGroupEntry| group_line(e)),
        decreases groups.len() - i,
    {
        let e = &groups[i];
        let mut line = owned_text("   ");
        line.append(e.node_id.as_str());
        line.append(" -> ");
        line.append(e.group_name.as_str());
        let ghost prev = texts(v@);
        v.push(line);
        assert(line@ == group_line(groups@[i as int]));
        assert(texts(v@) =~= prev.push(group_line(groups@[i as int])));
        assert(texts(v@) =~= seq!["Groups:"@] + groups@.take(i as int + 1).map_values(|e: AclGroupEntry| group_line(e)));
        i = i + 1;
    }
    assert(groups@.take(i as int) =~= groups@);
    assert(texts(v@) =~= group_lines(groups@));
    v
}

fn rule_listing_lines(rules: &Vec<AclRuleEntry>) -> (v: Vec<String>)
    ensures
        texts(v@) == rule_lines(rules@),
{
    let mut v: Vec<String> = Vec::new();
    if rules.len() == 0 {
        v.push(owned_text("No rules defined (every node sees every other)."));
        assert(texts(v@) =~= rule_lines(rules@));
        return v;
    }
    v.push(owned_text("Rules:"));
    let mut i: usize = 0;
    assert(texts(v@) =~= seq!["Rules:"@] + rules@.take(0).map_values(|e: AclRuleEntry| rule_line(e)));
    while i < rules.len()
        invariant
            i <= rules@.len(),
            texts(v@) == seq!["Rules:"@] + rules@.take(i as int).map_values(|e: AclRuleEntry| rule_line(e)),
        decreases rules.len() - i,
    {
        let e = &rules[i];
        let mut line = owned_text("   ");
        line.append(e.from_group.as_str());
        line.append(" -> ");
        line.append(e.to_group.as_str());
        line.append(" (allow)");
        let ghost prev = texts(v@);
        v.push(line);
        assert(line@ == rule_line(rules@[i as int]));
        assert(texts(v@) =~= prev.push(rule_line(rules@[i as int])));
        assert(texts(v@) =~= seq!["Rules:"@] + rules@.take(i as int + 1).map_values(|e: AclRuleEntry| rule_line(e)));
        i = i + 1;
    }
    assert(rules@.take(i as int) =~= rules@);
    assert(texts(v@) =~= rule_lines(rules@));
    v
}

/// The lines printed for the server's answer `reply` to `command`: the
/// confirmation when a change is answered `Pong`, the groups and rules when
/// a listing is answered with them; `None` for any other answer.
pub open spec fn acl_reply_text(command: AclCommand, reply: ControlMessage) -> Option<Seq<Seq<char>>> {
    match reply {
        ControlMessage::Pong => if command is List { None } else { Some(seq![acl_done_text(command)]) },
        ControlMessage::AclListResponse { groups, rules } => if command is List {
            Some(group_lines(groups@) + rule_lines(rules@))
        } else {
            None
        },
        _ => None,
    }
}

/// Renders [`acl_reply_text`].
pub fn acl_reply_lines(command: &AclCommand, reply: &ControlMessage) -> (r: Option<Vec<String>>)
    ensures
        match r {
            Some(v) => acl_reply_text(*command, *reply) == Some(texts(v@)),
            None => acl_reply_text(*command, *reply) is None,
        },
{
    let listing = match command {
        AclCommand::List => true,
        _ => false,
    };
    match reply {
        ControlMessage::Pong => {
            if listing {
                return None;
            }
            let done = match command {
                AclCommand::AddGroup { .. } => owned_text("Group added."),
                AclCommand::RemoveGroup { .. } => owned_text("Group removed."),
                AclCommand::AddRule { .. } => owned_text("Rule added."),
                AclCommand::RemoveRule { .. } => owned_text("Rule removed."),
                AclCommand::List => owned_text(""),
            };
            let mut v: Vec<String> = Vec::new();
            v.push(done);
            assert(texts(v@) =~= seq![acl_done_text(*command)]);
            Some(v)
        },
        ControlMessage::AclListResponse { groups, rules } => {
            if !listing {
                return None;
            }
            let mut v = group_listing_lines(groups);
            let mut w = rule_listing_lines(rules);
            let ghost gv = v@;
            let ghost wv = w@;
            v.append(&mut w);
            assert(texts(v@) =~= texts(gv) + texts(wv));
            Some(v)
        },
        _ => None,
    }
}


/// The value of a base64 digit.
pub open spec fn b64_value(c: char) -> int {
    if 'A' <= c && c <= 'Z' {
        c as int - 65
    } else if 'a' <= c && c <= 'z' {
        c as int - 71
    } else if '0' <= c && c <= '9' {
        c as int + 4
    } else if c == '+' {
        62
    } else {
        63
    }
}

/// The bytes of one group of four base64 characters: three, or one or two
/// where the group ends in `=` padding.
pub open spec fn decode_group(c0: char, c1: char, c2: char, c3: char) -> Seq<u8> {
    let v2 = if c2 == '=' { 0 } else { b64_value(c2) };
    let v3 = if c3 == '=' { 0 } else { b64_value(c3) };
    let t = b64_value(c0) * 262144 + b64_value(c1) * 4096 + v2 * 64 + v3;
    if c2 == '=' {
        seq![(t / 65536) as u8]
    } else if c3 == '=' {
        seq![(t / 65536) as u8, (t / 256 % 256) as u8]
    } else {
        seq![(t / 65536) as u8, (t / 256 % 256) as u8, (t % 256) as u8]
    }
}

/// Standard base64 decoding, group by group.
pub open spec fn base64_decode(s: Seq<char>) -> Seq<u8>
    decreases s.len(),
{
    if s.len() < 4 {
        Seq::empty()
    } else {
        decode_group(s[0], s[1], s[2], s[3]) + base64_decode(s.skip(4))
    }
}

proof fn lemma_b64_value(v: int)
    requires
        0 <= v < 64,
    ensures
        b64_value(b64_digit(v)) == v,
{
}

proof fn lemma_b64_arith(b0: u8, b1: u8, b2: u8)
    ensures
        ({
            let t = b0 as int * 65536 + b1 as int * 256 + b2 as int;
            &&& t == (t / 262144 % 64) * 262144 + (t / 4096 % 64) * 4096 + (t / 64 % 64) * 64 + t % 64
            &&& t / 65536 == b0
            &&& t / 256 % 256 == b1
            &&& t % 256 == b2
            &&& b1 == 0 && b2 == 0 ==> t / 64 % 64 == 0 && t % 64 == 0
            &&& b2 == 0 ==> t % 64 == 0
        }),
{
    let x: u32 = ((b0 as u32) * 65536 + (b1 as u32) * 256 + (b2 as u32)) as u32;
    assert(x == b0 as int * 65536 + b1 as int * 256 + b2 as int);
    assert(x == (x / 262144 % 64) * 262144 + (x / 4096 % 64) * 4096 + (x / 64 % 64) * 64 + x % 64) by (bit_vector)
        requires x < 16777216;
    assert(x / 65536 == b0 as u32 && x / 256 % 256 == b1 as u32 && x % 256 == b2 as u32) by (bit_vector)
        requires x == (b0 as u32) * 65536 + (b1 as u32) * 256 + (b2 as u32);
    assert(b1 == 0 && b2 == 0 ==> x / 64 % 64 == 0 && x % 64 == 0) by (bit_vector)
        requires x == (b0 as u32) * 65536 + (b1 as u32) * 256 + (b2 as u32);
    assert(b2 == 0 ==> x % 64 == 0) by (bit_vector)
        requires x == (b0 as u32) * 65536 + (b1 as u32) * 256 + (b2 as u32);
}

proof fn lemma_b64_chunk(data: Seq<u8>)
    requires
        data.len() > 0,
    ensures
        base64(data).len() >= 4,
        decode_group(base64(data)[0], base64(data)[1], base64(data)[2], base64(data)[3])
            == data.take(if data.len() < 3 { data.len() as int } else { 3 }),
{
    let n = data.len();
    let b0 = data[0] as int;
    let b1 = if n > 1 { data[1] as int } else { 0 };
    let b2 = if n > 2 { data[2] as int } else { 0 };
    let t = b0 * 65536 + b1 * 256 + b2;
    lemma_b64_arith(b0 as u8, b1 as u8, b2 as u8);
    lemma_base64_shape(data);
    let d0 = t / 262144 % 64;
    let d1 = t / 4096 % 64;
    let d2 = t / 64 % 64;
    let d3 = t % 64;
    lemma_b64_digit(d0);
    lemma_b64_digit(d1);
    lemma_b64_digit(d2);
    lemma_b64_digit(d3);
    lemma_b64_value(d0);
    lemma_b64_value(d1);
    lemma_b64_value(d2);
    lemma_b64_value(d3);
    let enc = base64(data);
    assert(enc[0] == b64_digit(d0));
    assert(enc[1] == b64_digit(d1));
    assert(enc[2] == (if n > 1 { b64_digit(d2) } else { '=' }));
    assert(enc[3] == (if n > 2 { b64_digit(d3) } else { '=' }));
    assert(decode_group(enc[0], enc[1], enc[2], enc[3]) =~= data.take(if n < 3 { n as int } else { 3 }));
}

/// Decoding a base64 encoding gives back the bytes encoded.
pub proof fn lemma_base64_round_trip(data: Seq<u8>)
    ensures
        base64_decode(base64(data)) == data,
    decreases data.len(),
{
    if data.len() > 0 {
        let enc = base64(data);
        lemma_b64_chunk(data);
        lemma_base64_shape(data);
        if data.len() <= 3 {
            assert(enc.skip(4) =~= Seq::<char>::empty());
            assert(base64_decode(enc.skip(4)) == Seq::<u8>::empty());
            assert(base64_decode(enc) =~= data);
        } else {
            assert(enc.skip(4) =~= base64(data.skip(3)));
            lemma_base64_round_trip(data.skip(3));
            assert(base64_decode(enc) =~= data.take(3) + data.skip(3));
            assert(data.take(3) + data.skip(3) =~= data);
        }
    }
}


/// A status line ends in ` [online]` exactly when the peer is connected and
/// in ` [offline]` otherwise, whatever its endpoint; it names the endpoint,
/// or `unknown` where none is known.
pub proof fn lemma_status_line_state(p: PeerInfoView)
    ensures
        p.connected ==> status_line(p).skip(status_line(p).len() - 9) == " [online]"@,
        !p.connected ==> status_line(p).skip(status_line(p).len() - 10) == " [offline]"@,
        status_line(p).take(5) == "   - "@,
        connect_line(p).take(5) == "   - "@,
        p.connected ==> connect_line(p).skip(connect_line(p).len() - 9) == " [online]"@,
        !p.connected ==> connect_line(p).skip(connect_line(p).len() - 10) == " [offline]"@,
        status_line(p) == "   - "@ + p.name + " ("@ + p.vpn_ip + ") → "@
            + (if p.endpoint.len() == 0 { "unknown"@ } else { p.endpoint })
            + status_line(p).skip(status_line(p).len() - (if p.connected { 9int } else { 10int })),
{
    reveal_strlit("online");
    reveal_strlit("offline");
    reveal_strlit(" [");
    reveal_strlit("]");
    reveal_strlit(" [online]");
    reveal_strlit(" [offline]");
    reveal_strlit("   - ");
    reveal_strlit(") [");
    reveal_strlit(")");
    let head = "   - "@ + p.name + " ("@ + p.vpn_ip + ") → "@ + (if p.endpoint.len() == 0 { "unknown"@ } else { p.endpoint });
    let tail = " ["@ + state_word(p.connected) + "]"@;
    assert(status_line(p) == head + tail);
    if p.connected {
        assert(tail =~= " [online]"@);
    } else {
        assert(tail =~= " [offline]"@);
    }
    assert((head + tail).skip(head.len() as int) =~= tail);
    assert(status_line(p).take(5) =~= "   - "@);
    let chead = "   - "@ + p.name + " ("@ + p.vpn_ip + ")"@;
    assert(connect_line(p) =~= chead + tail);
    assert((chead + tail).skip(chead.len() as int) =~= tail);
    assert(connect_line(p).take(5) =~= "   - "@);
    assert(head + tail =~= head + (head + tail).skip(head.len() as int));
}

} // verus!
