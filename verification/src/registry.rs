//! The control server's registry of nodes: address assignment, session
//! tokens, liveness, and group-based visibility between nodes.

use vstd::prelude::*;
use rand::Rng;
use crate::pairs::{PairSet, TextPair, pairs_view, seconds, lemma_seconds_contains};
use crate::protocol::{PeerInfo, PeerInfoView, peers_view};
use crate::text::{push_char, push_decimal, decimal, hex_encode, hex_string, str_eq, texts};

verus! {

/// A registered node with its session token and the time, in seconds since
/// the Unix epoch, of its last sign of life.
#[derive(Debug, Clone)]
pub struct NodeEntry {
    pub info: PeerInfo,
    pub session_token: String,
    pub last_heartbeat: u64,
}

/// The contents of a [`NodeEntry`].
pub struct NodeView {
    pub info: PeerInfoView,
    pub session_token: Seq<char>,
    pub last_heartbeat: u64,
}

impl View for NodeEntry {
    type V = NodeView;

    open spec fn view(&self) -> NodeView {
        NodeView { info: self.info@, session_token: self.session_token@, last_heartbeat: self.last_heartbeat }
    }
}

/// The views of a list of entries.
pub open spec fn entries_view(v: Seq<NodeEntry>) -> Seq<NodeView> {
    v.map_values(|e: NodeEntry| e@)
}

/// The position of the first entry for `id`, or -1.
pub open spec fn index_of(s: Seq<NodeView>, id: Seq<char>) -> int
    decreases s.len(),
{
    if s.len() == 0 {
        -1
    } else if s[0].info.node_id == id {
        0
    } else {
        let r = index_of(s.drop_first(), id);
        if r < 0 { -1 } else { r + 1 }
    }
}

/// What `index_of` finds.
pub proof fn lemma_index_of(s: Seq<NodeView>, id: Seq<char>)
    ensures
        -1 <= index_of(s, id) < s.len(),
        index_of(s, id) >= 0 ==> s[index_of(s, id)].info.node_id == id,
        forall|k: int| 0 <= k < s.len() && (index_of(s, id) < 0 || k < index_of(s, id))
            ==> #[trigger] s[k].info.node_id != id,
    decreases s.len(),
{
    if s.len() > 0 && s[0].info.node_id != id {
        let t = s.drop_first();
        lemma_index_of(t, id);
        let r = index_of(t, id);
        assert(index_of(s, id) == (if r < 0 { -1 } else { r + 1 }));
        assert forall|k: int| 0 <= k < s.len() && (index_of(s, id) < 0 || k < index_of(s, id))
            implies #[trigger] s[k].info.node_id != id by {
            if k > 0 {
                assert(s[k] == t[k - 1]);
                assert(r < 0 || k - 1 < r);
                assert(t[k - 1].info.node_id != id);
            }
        }
    }
}

/// Inserts `e`, replacing the entry with the same node id if there is one.
pub open spec fn upsert(s: Seq<NodeView>, e: NodeView) -> Seq<NodeView> {
    let k = index_of(s, e.info.node_id);
    if k >= 0 { s.update(k, e) } else { s.push(e) }
}

/// No two entries share a node id.
pub open spec fn ids_unique(s: Seq<NodeView>) -> bool {
    forall|i: int, j: int| 0 <= i < j < s.len() ==> #[trigger] s[i].info.node_id != #[trigger] s[j].info.node_id
}

/// The session `(id, token)` belongs to a registered node.
pub open spec fn session_valid(s: Seq<NodeView>, id: Seq<char>, token: Seq<char>) -> bool {
    index_of(s, id) >= 0 && s[index_of(s, id)].session_token == token
}

/// The number of host addresses of `10.13.0.0/16` that nodes get:
/// `10.13.0.1` to `10.13.255.254` (the network and broadcast addresses are
/// left out).
pub open spec fn address_pool_size() -> int {
    65534
}

/// The `k`-th host address of the pool, counting from 0 in numeric order:
/// host number `h = k + 1`, written `10.13.<h / 256>.<h % 256>`.
pub open spec fn candidate_ip(k: int) -> Seq<char> {
    seq!['1', '0', '.', '1', '3', '.'] + decimal(((k + 1) / 256) as nat) + seq!['.'] + decimal(((k + 1) % 256) as nat)
}

/// Some node holds address `ip`.
pub open spec fn ip_in_use(s: Seq<NodeView>, ip: Seq<char>) -> bool {
    exists|i: int| 0 <= i < s.len() && #[trigger] s[i].info.vpn_ip == ip
}

/// `k` is the first address of the pool that no node holds.
pub open spec fn is_lowest_free(s: Seq<NodeView>, k: int) -> bool {
    &&& 0 <= k < address_pool_size()
    &&& !ip_in_use(s, candidate_ip(k))
    &&& forall|j: int| 0 <= j < k ==> ip_in_use(s, #[trigger] candidate_ip(j))
}

/// Every address of the pool is held by some node.
pub open spec fn pool_exhausted(s: Seq<NodeView>) -> bool {
    forall|k: int| 0 <= k < address_pool_size() ==> ip_in_use(s, #[trigger] candidate_ip(k))
}

/// The node id made of eight bytes: `node-` and their sixteen lower-case
/// hexadecimal digits.
pub open spec fn node_id_text(b: Seq<u8>) -> Seq<char> {
    seq!['n', 'o', 'd', 'e', '-'] + hex_string(b)
}

/// A node id: `node-` and sixteen lower-case hexadecimal digits.
pub open spec fn is_node_id(id: Seq<char>) -> bool {
    exists|b: Seq<u8>| b.len() == 8 && id == seq!['n', 'o', 'd', 'e', '-'] + hex_string(b)
}

/// A session token: sixteen lower-case hexadecimal digits.
pub open spec fn is_token(t: Seq<char>) -> bool {
    exists|b: Seq<u8>| b.len() == 8 && t == hex_string(b)
}

/// The entry a registration creates.
pub open spec fn fresh_node(id: Seq<char>, name: Seq<char>, ip: Seq<char>, public_key: Seq<char>, token: Seq<char>, now: u64) -> NodeView {
    NodeView {
        info: PeerInfoView { node_id: id, name, vpn_ip: ip, public_key, endpoint: Seq::empty(), connected: true },
        session_token: token,
        last_heartbeat: now,
    }
}

/// One random byte from the thread-local generator (`rand::Rng::gen`).
#[verifier::external_body]
fn random_byte() -> u8 {
    rand::thread_rng().gen::<u8>()
}

/// Eight random bytes, for a node id or a session token.
pub(crate) fn random_id_bytes() -> [u8; 8] {
    [random_byte(), random_byte(), random_byte(), random_byte(), random_byte(), random_byte(), random_byte(), random_byte()]
}

/// Seconds since the Unix epoch from the system clock (`SystemTime::now`);
/// `None` where the clock is set before the epoch.
#[verifier::external_body]
fn unix_time() -> Option<u64> {
    std::time::SystemTime::now().duration_since(std::time::UNIX_EPOCH).ok().map(|d| d.as_secs())
}

/// A clock reading in seconds since the Unix epoch, 0 for a clock set
/// before the epoch.
pub fn secs_or_zero(t: Option<u64>) -> (r: u64)
    ensures
        r == match t {
            Some(s) => s,
            None => 0,
        },
{
    match t {
        Some(s) => s,
        None => 0,
    }
}

/// The current time in seconds since the Unix epoch, 0 where the clock is
/// set before the epoch (see [`secs_or_zero`]).
pub fn now_secs() -> u64 {
    secs_or_zero(unix_time())
}

/// Renders `10.13.<third>.<fourth>`.
fn format_ip(third: u32, fourth: u32) -> (s: String)
    ensures
        s@ == seq!['1', '0', '.', '1', '3', '.'] + decimal(third as nat) + seq!['.'] + decimal(fourth as nat),
{
    let mut s = String::new();
    push_char(&mut s, '1');
    push_char(&mut s, '0');
    push_char(&mut s, '.');
    push_char(&mut s, '1');
    push_char(&mut s, '3');
    push_char(&mut s, '.');
    push_decimal(&mut s, third as u64);
    push_char(&mut s, '.');
    push_decimal(&mut s, fourth as u64);
    assert(s@ =~= seq!['1', '0', '.', '1', '3', '.'] + decimal(third as nat) + seq!['.'] + decimal(fourth as nat));
    s
}

/// Seconds from `then` to `now`, 0 if `then` is later.
pub open spec fn elapsed(now: u64, then: u64) -> int {
    if now >= then { now - then } else { 0 }
}

/// A node is marked offline after this many seconds without a sign of life.
pub open spec fn offline_after() -> int {
    60
}

/// A node is deleted after this many seconds without a sign of life.
pub open spec fn delete_after() -> int {
    86400
}

/// `e` with a new endpoint, seen at `now`.
pub open spec fn with_endpoint(e: NodeView, endpoint: Seq<char>, now: u64) -> NodeView {
    NodeView { info: PeerInfoView { endpoint, ..e.info }, last_heartbeat: now, ..e }
}

/// `e` after a heartbeat at `now`: online and seen.
pub open spec fn with_heartbeat(e: NodeView, now: u64) -> NodeView {
    NodeView { info: PeerInfoView { connected: true, ..e.info }, last_heartbeat: now, ..e }
}

/// The entries after node `id` reported `endpoint` at `now`; unchanged if
/// there is no such node.
pub open spec fn endpoint_updated(s: Seq<NodeView>, id: Seq<char>, endpoint: Seq<char>, now: u64) -> Seq<NodeView> {
    let k = index_of(s, id);
    if k >= 0 { s.update(k, with_endpoint(s[k], endpoint, now)) } else { s }
}

/// The entries after a heartbeat of node `id` at `now`; unchanged if there
/// is no such node.
pub open spec fn heartbeat_recorded(s: Seq<NodeView>, id: Seq<char>, now: u64) -> Seq<NodeView> {
    let k = index_of(s, id);
    if k >= 0 { s.update(k, with_heartbeat(s[k], now)) } else { s }
}

/// The entries without node `id`.
pub open spec fn node_removed(s: Seq<NodeView>, id: Seq<char>) -> Seq<NodeView> {
    let k = index_of(s, id);
    if k >= 0 { s.remove(k) } else { s }
}

/// `e` marked offline.
pub open spec fn marked_offline(e: NodeView) -> NodeView {
    NodeView { info: PeerInfoView { connected: false, ..e.info }, ..e }
}

/// The entries after reaping at `now`: those silent for more than a day are
/// dropped, those silent for more than a minute are marked offline, the
/// rest are kept as they are, in the same order.
pub open spec fn after_reap(s: Seq<NodeView>, now: u64) -> Seq<NodeView>
    decreases s.len(),
{
    if s.len() == 0 {
        Seq::empty()
    } else {
        let r = after_reap(s.drop_last(), now);
        let e = s.last();
        if elapsed(now, e.last_heartbeat) > delete_after() {
            r
        } else if elapsed(now, e.last_heartbeat) > offline_after() {
            r.push(marked_offline(e))
        } else {
            r.push(e)
        }
    }
}

/// What a reaping pass at `now` reports to the store, in order: each node
/// silent for more than a day is deleted, each one silent for more than a
/// minute goes offline.
pub open spec fn reap_changes(s: Seq<NodeView>, now: u64) -> Seq<(Seq<char>, bool)>
    decreases s.len(),
{
    if s.len() == 0 {
        Seq::empty()
    } else {
        let r = reap_changes(s.drop_last(), now);
        let e = s.last();
        if elapsed(now, e.last_heartbeat) > delete_after() {
            r.push((e.info.node_id, true))
        } else if elapsed(now, e.last_heartbeat) > offline_after() {
            r.push((e.info.node_id, false))
        } else {
            r
        }
    }
}

/// A reaping change as `(node id, deleted)`.
pub open spec fn reap_change_view(c: StoreChange) -> (Seq<char>, bool) {
    match c {
        StoreChange::NodeDeleted { node_id } => (node_id@, true),
        StoreChange::NodeOffline { node_id } => (node_id@, false),
        _ => (Seq::empty(), false),
    }
}

/// The changes of a reaping pass.
pub open spec fn reap_changes_view(v: Seq<StoreChange>) -> Seq<(Seq<char>, bool)> {
    v.map_values(|c: StoreChange| reap_change_view(c))
}

proof fn lemma_after_reap_ids(s: Seq<NodeView>, now: u64)
    requires
        ids_unique(s),
    ensures
        ids_unique(after_reap(s, now)),
        forall|x: int| 0 <= x < after_reap(s, now).len() ==>
            exists|i: int| 0 <= i < s.len() && s[i].info.node_id == #[trigger] after_reap(s, now)[x].info.node_id,
    decreases s.len(),
{
    if s.len() > 0 {
        let p = s.drop_last();
        assert(ids_unique(p)) by {
            assert forall|i: int, j: int| 0 <= i < j < p.len() implies #[trigger] p[i].info.node_id != #[trigger] p[j].info.node_id by {
                assert(p[i] == s[i] && p[j] == s[j]);
            }
        }
        lemma_after_reap_ids(p, now);
        let r = after_reap(p, now);
        let out = after_reap(s, now);
        assert forall|x: int| 0 <= x < out.len() implies
            exists|i: int| 0 <= i < s.len() && s[i].info.node_id == #[trigger] out[x].info.node_id by {
            if x < r.len() {
                assert(out[x] == r[x]);
                let i = choose|i: int| 0 <= i < p.len() && p[i].info.node_id == r[x].info.node_id;
                assert(s[i] == p[i]);
            } else {
                assert(out[x].info.node_id == s[s.len() - 1].info.node_id);
            }
        }
        assert forall|i: int, j: int| 0 <= i < j < out.len() implies #[trigger] out[i].info.node_id != #[trigger] out[j].info.node_id by {
            if j < r.len() {
                assert(out[i] == r[i] && out[j] == r[j]);
            } else {
                assert(out[i] == r[i]);
                let k = choose|k: int| 0 <= k < p.len() && p[k].info.node_id == r[i].info.node_id;
                assert(s[k] == p[k]);
                assert(out[j].info.node_id == s[s.len() - 1].info.node_id);
            }
        }
    }
}

/// Under the tables `groups` and `rules`, node `me` may see node `peer`:
/// without rules every node sees every other; with rules, `me` sees `peer`
/// when some group of `me` has a rule to some group of `peer`.
pub open spec fn sees(groups: Seq<TextPair>, rules: Seq<TextPair>, me: Seq<char>, peer: Seq<char>) -> bool {
    rules.len() == 0 || exists|mg: Seq<char>, pg: Seq<char>|
        #![trigger groups.contains((me, mg)), groups.contains((peer, pg))]
        groups.contains((me, mg)) && groups.contains((peer, pg)) && rules.contains((mg, pg))
}

/// The peers `me` is shown, in registration order: every other node that
/// `me` sees.
pub open spec fn visible_peers(groups: Seq<TextPair>, rules: Seq<TextPair>, me: Seq<char>, s: Seq<NodeView>) -> Seq<PeerInfoView>
    decreases s.len(),
{
    if s.len() == 0 {
        Seq::empty()
    } else {
        let r = visible_peers(groups, rules, me, s.drop_last());
        let e = s.last();
        if e.info.node_id != me && sees(groups, rules, me, e.info.node_id) {
            r.push(e.info)
        } else {
            r
        }
    }
}

proof fn lemma_visible_peers_none(groups: Seq<TextPair>, rules: Seq<TextPair>, me: Seq<char>, s: Seq<NodeView>)
    requires
        forall|i: int| 0 <= i < s.len() ==> !sees(groups, rules, me, #[trigger] s[i].info.node_id),
    ensures
        visible_peers(groups, rules, me, s) == Seq::<PeerInfoView>::empty(),
    decreases s.len(),
{
    if s.len() > 0 {
        let p = s.drop_last();
        assert forall|i: int| 0 <= i < p.len() implies !sees(groups, rules, me, #[trigger] p[i].info.node_id) by {
            assert(p[i] == s[i]);
        }
        lemma_visible_peers_none(groups, rules, me, p);
        assert(!sees(groups, rules, me, s[s.len() - 1].info.node_id));
    }
}

/// No string occurs twice.
pub open spec fn texts_distinct(s: Seq<Seq<char>>) -> bool {
    forall|i: int, j: int| 0 <= i < j < s.len() ==> s[i] != s[j]
}

proof fn lemma_push_contains<A>(s: Seq<A>, x: A, g: A)
    ensures
        s.push(x).contains(g) <==> (s.contains(g) || g == x),
{
    if s.push(x).contains(g) && g != x {
        let k = choose|k: int| 0 <= k < s.len() + 1 && s.push(x)[k] == g;
        assert(s[k] == g);
    }
    if s.contains(g) {
        let k = choose|k: int| 0 <= k < s.len() && s[k] == g;
        assert(s.push(x)[k] == g);
    }
    if g == x {
        assert(s.push(x)[s.len() as int] == g);
    }
}

/// Whether `s` is among `v`.
fn contains_text(v: &Vec<String>, s: &str) -> (r: bool)
    ensures
        r == texts(v@).contains(s@),
{
    let mut i: usize = 0;
    while i < v.len()
        invariant
            i <= v@.len(),
            forall|k: int| 0 <= k < i ==> #[trigger] texts(v@)[k] != s@,
        decreases v.len() - i,
    {
        if str_eq(v[i].as_str(), s) {
            assert(texts(v@)[i as int] == s@);
            return true;
        }
        assert(texts(v@)[i as int] == v@[i as int]@);
        i = i + 1;
    }
    false
}

/// The node a peer list is computed for: the given id, or the empty id.
pub open spec fn requester(exclude_id: Option<&str>) -> Seq<char> {
    match exclude_id {
        Some(s) => s@,
        None => Seq::empty(),
    }
}

/// Whether `a` and `b` share an element.
fn any_shared(a: &Vec<String>, b: &Vec<String>) -> (r: bool)
    ensures
        r == exists|x: Seq<char>| #[trigger] texts(a@).contains(x) && texts(b@).contains(x),
{
    let mut i: usize = 0;
    while i < a.len()
        invariant
            i <= a@.len(),
            forall|k: int| 0 <= k < i ==> !texts(b@).contains(#[trigger] texts(a@)[k]),
        decreases a.len() - i,
    {
        assert(texts(a@)[i as int] == a@[i as int]@);
        if contains_text(b, a[i].as_str()) {
            assert(texts(a@).contains(texts(a@)[i as int]));
            return true;
        }
        i = i + 1;
    }
    proof {
        assert forall|x: Seq<char>| #[trigger] texts(a@).contains(x) implies !texts(b@).contains(x) by {
            let k = choose|k: int| 0 <= k < texts(a@).len() && texts(a@)[k] == x;
        }
    }
    false
}

/// A change the server makes to its nodes or its access-control tables,
/// for the persistent store to follow.
#[derive(Debug)]
pub enum StoreChange {
    Unchanged,
    NodeRegistered { node_id: String, name: String, vpn_ip: String, public_key: String, session_token: String, last_heartbeat: u64 },
    EndpointUpdated { node_id: String, endpoint: String, last_heartbeat: u64 },
    HeartbeatRecorded { node_id: String, last_heartbeat: u64 },
    GroupAdded { node_id: String, group_name: String },
    GroupRemoved { node_id: String, group_name: String },
    RuleAdded { from_group: String, to_group: String },
    RuleRemoved { from_group: String, to_group: String },
    NodeOffline { node_id: String },
    NodeDeleted { node_id: String },
}

/// The registry of nodes and the access-control tables.
pub struct Registry {
    nodes: Vec<NodeEntry>,
    groups: PairSet,
    rules: PairSet,
    relay_addr: String,
}

/// Why a registration failed.
#[derive(Debug, Clone, Copy, PartialEq, Eq)]
pub enum RegistryError {
    /// Every address of the pool is held by a node.
    AddressSpaceExhausted,
    /// The freshly drawn node id is already held by a node.
    NodeIdTaken,
}

impl Registry {
    /// The registered nodes, in registration order.
    pub closed spec fn entries(&self) -> Seq<NodeView> {
        entries_view(self.nodes@)
    }

    /// Group memberships `(node id, group)`, sorted.
    pub closed spec fn group_table(&self) -> Seq<TextPair> {
        self.groups@
    }

    /// Rules `(from group, to group)`, sorted.
    pub closed spec fn rule_table(&self) -> Seq<TextPair> {
        self.rules@
    }

    /// The relay address handed to nodes.
    pub closed spec fn relay(&self) -> Seq<char> {
        self.relay_addr@
    }

    /// The registry's internal consistency.
    pub closed spec fn wf(&self) -> bool {
        &&& ids_unique(self.entries())
        &&& self.groups.wf()
        &&& self.rules.wf()
    }

    /// An empty registry that hands out `relay_addr` as the relay.
    pub fn new(relay_addr: String) -> (r: Registry)
        ensures
            r.wf(),
            r.entries() == Seq::<NodeView>::empty(),
            r.group_table() == Seq::<TextPair>::empty(),
            r.rule_table() == Seq::<TextPair>::empty(),
            r.relay() == relay_addr@,
    {
        let r = Registry { nodes: Vec::new(), groups: PairSet::new(), rules: PairSet::new(), relay_addr };
        assert(r.entries() =~= Seq::<NodeView>::empty());
        r
    }

    /// The position of the entry for `node_id`.
    fn find(&self, node_id: &str) -> (r: Option<usize>)
        ensures
            r is Some <==> index_of(self.entries(), node_id@) >= 0,
            r matches Some(i) ==> i as int == index_of(self.entries(), node_id@) && i < self.nodes@.len(),
    {
        proof {
            lemma_index_of(self.entries(), node_id@);
        }
        let mut i: usize = 0;
        while i < self.nodes.len()
            invariant
                i <= self.nodes@.len(),
                self.entries().len() == self.nodes@.len(),
                -1 <= index_of(self.entries(), node_id@) < self.entries().len(),
                index_of(self.entries(), node_id@) >= 0 ==> self.entries()[index_of(self.entries(), node_id@)].info.node_id == node_id@,
                forall|k: int| 0 <= k < self.entries().len() && (index_of(self.entries(), node_id@) < 0 || k < index_of(self.entries(), node_id@))
                    ==> #[trigger] self.entries()[k].info.node_id != node_id@,
                forall|k: int| 0 <= k < i ==> #[trigger] self.entries()[k].info.node_id != node_id@,
            decreases self.nodes.len() - i,
        {
            assert(self.entries()[i as int] == self.nodes@[i as int]@);
            if str_eq(self.nodes[i].info.node_id.as_str(), node_id) {
                proof {
                    let ix = index_of(self.entries(), node_id@);
                    assert(self.entries()[i as int].info.node_id == node_id@);
                    if ix >= 0 && ix < i {
                        assert(self.entries()[ix].info.node_id == node_id@);
                    }
                }
                return Some(i);
            }
            i = i + 1;
        }
        None
    }

    /// Adds a node, or replaces the node with the same id.
    pub fn insert_node(&mut self, entry: NodeEntry)
        requires
            old(self).wf(),
        ensures
            final(self).wf(),
            final(self).entries() == upsert(old(self).entries(), entry@),
            final(self).group_table() == old(self).group_table(),
            final(self).rule_table() == old(self).rule_table(),
            final(self).relay() == old(self).relay(),
    {
        let ghost before = self.entries();
        let ghost e = entry@;
        proof {
            lemma_index_of(before, e.info.node_id);
        }
        match self.find(entry.info.node_id.as_str()) {
            Some(i) => {
                self.nodes.set(i, entry);
                assert(self.entries() =~= before.update(i as int, e));
                assert forall|a: int, b: int| 0 <= a < b < self.entries().len() implies
                    #[trigger] self.entries()[a].info.node_id != #[trigger] self.entries()[b].info.node_id by {
                    assert(before[a].info.node_id == self.entries()[a].info.node_id);
                    assert(before[b].info.node_id == self.entries()[b].info.node_id);
                }
            },
            None => {
                self.nodes.push(entry);
                assert(self.entries() =~= before.push(e));
                assert forall|a: int, b: int| 0 <= a < b < self.entries().len() implies
                    #[trigger] self.entries()[a].info.node_id != #[trigger] self.entries()[b].info.node_id by {
                    if b == before.len() {
                        assert(before[a].info.node_id != e.info.node_id);
                    } else {
                        assert(before[a] == self.entries()[a]);
                        assert(before[b] == self.entries()[b]);
                    }
                }
            },
        }
    }

    /// Whether some node holds address `ip`.
    fn ip_used(&self, ip: &str) -> (r: bool)
        ensures
            r == ip_in_use(self.entries(), ip@),
    {
        let mut i: usize = 0;
        while i < self.nodes.len()
            invariant
                i <= self.nodes@.len(),
                self.entries().len() == self.nodes@.len(),
                forall|k: int| 0 <= k < i ==> #[trigger] self.entries()[k].info.vpn_ip != ip@,
            decreases self.nodes.len() - i,
        {
            assert(self.entries()[i as int] == self.nodes@[i as int]@);
            if str_eq(self.nodes[i].info.vpn_ip.as_str(), ip) {
                assert(self.entries()[i as int].info.vpn_ip == ip@);
                return true;
            }
            i = i + 1;
        }
        false
    }

    /// The lowest address of the pool that no node holds.
    pub fn next_ip(&self) -> (r: Result<String, RegistryError>)
        ensures
            r is Err <==> pool_exhausted(self.entries()),
            r is Err ==> r == Err::<String, RegistryError>(RegistryError::AddressSpaceExhausted),
            r matches Ok(ip) ==> exists|k: int| is_lowest_free(self.entries(), k) && ip@ == candidate_ip(k),
    {
        let mut h: u32 = 1;
        while h <= 65534
            invariant
                1 <= h <= 65535,
                forall|j: int| 0 <= j < h - 1 ==> ip_in_use(self.entries(), #[trigger] candidate_ip(j)),
            decreases 65535 - h,
        {
            let ip = format_ip(h / 256, h % 256);
            let ghost k: int = h - 1;
            assert((k + 1) / 256 == (h / 256) as int && (k + 1) % 256 == (h % 256) as int);
            assert(ip@ == candidate_ip(k));
            if !self.ip_used(ip.as_str()) {
                return Ok(ip);
            }
            h = h + 1;
        }
        Err(RegistryError::AddressSpaceExhausted)
    }

    /// Registers a node under a fresh random id and token, on the lowest free
    /// address, seen at time `now`: [`Registry::register_with`] on eight
    /// random bytes for the id and eight for the token.
    pub fn register(&mut self, name: String, public_key: String, now: u64) -> (r: Result<(String, String, String), RegistryError>)
        requires
            old(self).wf(),
        ensures
            final(self).wf(),
            (r == Err::<(String, String, String), RegistryError>(RegistryError::AddressSpaceExhausted)) <==> pool_exhausted(old(self).entries()),
            (r == Err::<(String, String, String), RegistryError>(RegistryError::NodeIdTaken)) ==> !pool_exhausted(old(self).entries())
                && exists|i: int| 0 <= i < old(self).entries().len() && is_node_id(#[trigger] old(self).entries()[i].info.node_id),
            r is Err ==> final(self).entries() == old(self).entries(),
            r matches Ok((id, ip, token)) ==> {
                &&& index_of(old(self).entries(), id@) < 0
                &&& is_node_id(id@)
                &&& is_token(token@)
                &&& exists|k: int| is_lowest_free(old(self).entries(), k) && ip@ == candidate_ip(k)
                &&& final(self).entries() == upsert(old(self).entries(), fresh_node(id@, name@, ip@, public_key@, token@, now))
            },
            final(self).group_table() == old(self).group_table(),
            final(self).rule_table() == old(self).rule_table(),
            final(self).relay() == old(self).relay(),
    {
        let id_bytes = random_id_bytes();
        let token_bytes = random_id_bytes();
        let ghost before = self.entries();
        let r = self.register_with(name, public_key, &id_bytes, &token_bytes, now);
        proof {
            if r == Err::<(String, String, String), RegistryError>(RegistryError::NodeIdTaken) {
                let k = index_of(before, node_id_text(id_bytes@));
                lemma_index_of(before, node_id_text(id_bytes@));
                assert(is_node_id(before[k].info.node_id));
            }
        }
        r
    }

    /// Registers a node whose id is made of `id_bytes` and whose session
    /// token is the hexadecimal digits of `token_bytes`, on the lowest free
    /// address, seen at time `now`. It fails when no address is free, and
    /// otherwise when a node already holds that id.
    pub fn register_with(&mut self, name: String, public_key: String, id_bytes: &[u8; 8], token_bytes: &[u8; 8], now: u64) -> (r: Result<(String, String, String), RegistryError>)
        requires
            old(self).wf(),
        ensures
            final(self).wf(),
            (r == Err::<(String, String, String), RegistryError>(RegistryError::AddressSpaceExhausted)) <==> pool_exhausted(old(self).entries()),
            (r == Err::<(String, String, String), RegistryError>(RegistryError::NodeIdTaken)) <==>
                (!pool_exhausted(old(self).entries()) && index_of(old(self).entries(), node_id_text(id_bytes@)) >= 0),
            r is Err ==> final(self).entries() == old(self).entries(),
            r matches Ok((id, ip, token)) ==> {
                &&& id@ == node_id_text(id_bytes@)
                &&& token@ == hex_string(token_bytes@)
                &&& index_of(old(self).entries(), id@) < 0
                &&& is_node_id(id@)
                &&& is_token(token@)
                &&& exists|k: int| is_lowest_free(old(self).entries(), k) && ip@ == candidate_ip(k)
                &&& final(self).entries() == upsert(old(self).entries(), fresh_node(id@, name@, ip@, public_key@, token@, now))
            },
            final(self).group_table() == old(self).group_table(),
            final(self).rule_table() == old(self).rule_table(),
            final(self).relay() == old(self).relay(),
    {
        let suffix = hex_encode(id_bytes);
        let mut node_id = String::new();
        push_char(&mut node_id, 'n');
        push_char(&mut node_id, 'o');
        push_char(&mut node_id, 'd');
        push_char(&mut node_id, 'e');
        push_char(&mut node_id, '-');
        node_id.append(suffix.as_str());
        assert(node_id@ =~= node_id_text(id_bytes@));
        assert(is_node_id(node_id@)) by {
            assert(id_bytes@.len() == 8);
        }
        let vpn_ip = match self.next_ip() {
            Ok(ip) => ip,
            Err(e) => return Err(e),
        };
        proof {
            lemma_index_of(self.entries(), node_id@);
        }
        if let Some(i) = self.find(node_id.as_str()) {
            assert(self.entries()[i as int].info.node_id == node_id@);
            return Err(RegistryError::NodeIdTaken);
        }
        let session_token = hex_encode(token_bytes);
        assert(is_token(session_token@)) by {
            assert(token_bytes@.len() == 8);
        }
        let entry = NodeEntry {
            info: PeerInfo {
                node_id: node_id.clone(),
                name,
                vpn_ip: vpn_ip.clone(),
                public_key,
                endpoint: String::new(),
                connected: true,
            },
            session_token: session_token.clone(),
            last_heartbeat: now,
        };
        assert(entry@ == fresh_node(node_id@, entry.info.name@, vpn_ip@, entry.info.public_key@, session_token@, now));
        self.insert_node(entry);
        Ok((node_id, vpn_ip, session_token))
    }

    fn entry_copy(e: &NodeEntry) -> (r: NodeEntry)
        ensures
            r@ == e@,
    {
        NodeEntry { info: e.info.duplicate(), session_token: e.session_token.clone(), last_heartbeat: e.last_heartbeat }
    }

    /// Records the public endpoint that node `node_id` reported at `now`.
    pub fn update_endpoint(&mut self, node_id: &str, endpoint: String, now: u64)
        requires
            old(self).wf(),
        ensures
            final(self).wf(),
            final(self).entries() == endpoint_updated(old(self).entries(), node_id@, endpoint@, now),
            final(self).group_table() == old(self).group_table(),
            final(self).rule_table() == old(self).rule_table(),
            final(self).relay() == old(self).relay(),
    {
        if let Some(i) = self.find(node_id) {
            let ghost before = self.entries();
            let e = &self.nodes[i];
            let updated = NodeEntry {
                info: PeerInfo {
                    node_id: e.info.node_id.clone(),
                    name: e.info.name.clone(),
                    vpn_ip: e.info.vpn_ip.clone(),
                    public_key: e.info.public_key.clone(),
                    endpoint,
                    connected: e.info.connected,
                },
                session_token: e.session_token.clone(),
                last_heartbeat: now,
            };
            assert(updated@ == with_endpoint(before[i as int], updated.info.endpoint@, now));
            self.nodes.set(i, updated);
            assert(self.entries() =~= before.update(i as int, with_endpoint(before[i as int], self.nodes@[i as int].info.endpoint@, now)));
            proof {
                assert forall|a: int, b: int| 0 <= a < b < self.entries().len() implies
                    #[trigger] self.entries()[a].info.node_id != #[trigger] self.entries()[b].info.node_id by {
                    assert(before[a].info.node_id == self.entries()[a].info.node_id);
                    assert(before[b].info.node_id == self.entries()[b].info.node_id);
                }
            }
        }
    }

    /// Records a heartbeat of node `node_id` at `now`: the node is online.
    pub fn heartbeat(&mut self, node_id: &str, now: u64)
        requires
            old(self).wf(),
        ensures
            final(self).wf(),
            final(self).entries() == heartbeat_recorded(old(self).entries(), node_id@, now),
            final(self).group_table() == old(self).group_table(),
            final(self).rule_table() == old(self).rule_table(),
            final(self).relay() == old(self).relay(),
    {
        if let Some(i) = self.find(node_id) {
            let ghost before = self.entries();
            let e = &self.nodes[i];
            let updated = NodeEntry {
                info: PeerInfo {
                    node_id: e.info.node_id.clone(),
                    name: e.info.name.clone(),
                    vpn_ip: e.info.vpn_ip.clone(),
                    public_key: e.info.public_key.clone(),
                    endpoint: e.info.endpoint.clone(),
                    connected: true,
                },
                session_token: e.session_token.clone(),
                last_heartbeat: now,
            };
            assert(updated@ == with_heartbeat(before[i as int], now));
            self.nodes.set(i, updated);
            assert(self.entries() =~= before.update(i as int, with_heartbeat(before[i as int], now)));
            proof {
                assert forall|a: int, b: int| 0 <= a < b < self.entries().len() implies
                    #[trigger] self.entries()[a].info.node_id != #[trigger] self.entries()[b].info.node_id by {
                    assert(before[a].info.node_id == self.entries()[a].info.node_id);
                    assert(before[b].info.node_id == self.entries()[b].info.node_id);
                }
            }
        }
    }

    /// Marks nodes silent for more than a minute offline and deletes nodes
    /// silent for more than a day, as of `now`.
    pub fn reap_stale(&mut self, now: u64) -> (changes: Vec<StoreChange>)
        requires
            old(self).wf(),
        ensures
            final(self).wf(),
            final(self).entries() == after_reap(old(self).entries(), now),
            reap_changes_view(changes@) == reap_changes(old(self).entries(), now),
            reaps_replayed(old(self).entries(), reap_changes_view(changes@)) == final(self).entries(),
            forall|i: int| 0 <= i < changes@.len() ==> (#[trigger] changes@[i] is NodeOffline || changes@[i] is NodeDeleted),
            final(self).group_table() == old(self).group_table(),
            final(self).rule_table() == old(self).rule_table(),
            final(self).relay() == old(self).relay(),
    {
        let ghost before = self.entries();
        let mut kept: Vec<NodeEntry> = Vec::new();
        let mut changes: Vec<StoreChange> = Vec::new();
        let mut i: usize = 0;
        while i < self.nodes.len()
            invariant
                i <= self.nodes@.len(),
                before == self.entries(),
                before.len() == self.nodes@.len(),
                entries_view(kept@) == after_reap(before.take(i as int), now),
                reap_changes_view(changes@) == reap_changes(before.take(i as int), now),
                forall|j: int| 0 <= j < changes@.len() ==> (#[trigger] changes@[j] is NodeOffline || changes@[j] is NodeDeleted),
            decreases self.nodes.len() - i,
        {
            let e = &self.nodes[i];
            let age: u64 = if now >= e.last_heartbeat { now - e.last_heartbeat } else { 0 };
            let ghost prev = kept@;
            let ghost prev_changes = changes@;
            proof {
                assert(before.take(i as int + 1).drop_last() =~= before.take(i as int));
                assert(before.take(i as int + 1).last() == before[i as int]);
                assert(before[i as int] == self.nodes@[i as int]@);
            }
            if age > 86400 {
                changes.push(StoreChange::NodeDeleted { node_id: e.info.node_id.clone() });
                assert(reap_changes_view(changes@) =~= reap_changes_view(prev_changes).push((before[i as int].info.node_id, true)));
            } else if age > 60 {
                changes.push(StoreChange::NodeOffline { node_id: e.info.node_id.clone() });
                assert(reap_changes_view(changes@) =~= reap_changes_view(prev_changes).push((before[i as int].info.node_id, false)));
                let mut c = Self::entry_copy(e);
                c.info.connected = false;
                assert(c@ == marked_offline(before[i as int]));
                kept.push(c);
                assert(entries_view(kept@) =~= entries_view(prev).push(marked_offline(before[i as int])));
            } else {
                let c = Self::entry_copy(e);
                kept.push(c);
                assert(entries_view(kept@) =~= entries_view(prev).push(before[i as int]));
            }
            i = i + 1;
        }
        assert(before.take(i as int) =~= before);
        proof {
            lemma_after_reap_ids(before, now);
            lemma_reaps_replayed(before, now);
        }
        self.nodes = kept;
        changes
    }

    /// Forgets node `node_id`.
    pub fn remove_node(&mut self, node_id: &str)
        requires
            old(self).wf(),
        ensures
            final(self).wf(),
            final(self).entries() == node_removed(old(self).entries(), node_id@),
            final(self).group_table() == old(self).group_table(),
            final(self).rule_table() == old(self).rule_table(),
            final(self).relay() == old(self).relay(),
    {
        if let Some(i) = self.find(node_id) {
            let ghost before = self.entries();
            self.nodes.remove(i);
            assert(self.entries() =~= before.remove(i as int));
            proof {
                assert forall|a: int, b: int| 0 <= a < b < self.entries().len() implies
                    #[trigger] self.entries()[a].info.node_id != #[trigger] self.entries()[b].info.node_id by {
                    let aa = if a < i { a } else { a + 1 };
                    let bb = if b < i { b } else { b + 1 };
                    assert(before[aa] == self.entries()[a]);
                    assert(before[bb] == self.entries()[b]);
                }
            }
        }
    }

    /// Puts node `node_id` in group `group`; a membership already present is kept.
    pub fn add_group(&mut self, node_id: &str, group: &str)
        requires
            old(self).wf(),
        ensures
            final(self).wf(),
            forall|q: TextPair| #[trigger] final(self).group_table().contains(q) <==>
                (old(self).group_table().contains(q) || q == (node_id@, group@)),
            final(self).entries() == old(self).entries(),
            final(self).rule_table() == old(self).rule_table(),
            final(self).relay() == old(self).relay(),
    {
        self.groups.insert(node_id, group);
    }

    /// Takes node `node_id` out of group `group`.
    pub fn remove_group(&mut self, node_id: &str, group: &str)
        requires
            old(self).wf(),
        ensures
            final(self).wf(),
            forall|q: TextPair| #[trigger] final(self).group_table().contains(q) <==>
                (old(self).group_table().contains(q) && q != (node_id@, group@)),
            final(self).entries() == old(self).entries(),
            final(self).rule_table() == old(self).rule_table(),
            final(self).relay() == old(self).relay(),
    {
        self.groups.remove(node_id, group);
    }

    /// Lets members of `from_group` see members of `to_group`; a rule already
    /// present is kept.
    pub fn add_rule(&mut self, from_group: &str, to_group: &str)
        requires
            old(self).wf(),
        ensures
            final(self).wf(),
            forall|q: TextPair| #[trigger] final(self).rule_table().contains(q) <==>
                (old(self).rule_table().contains(q) || q == (from_group@, to_group@)),
            final(self).entries() == old(self).entries(),
            final(self).group_table() == old(self).group_table(),
            final(self).relay() == old(self).relay(),
    {
        self.rules.insert(from_group, to_group);
    }

    /// Drops the rule from `from_group` to `to_group`.
    pub fn remove_rule(&mut self, from_group: &str, to_group: &str)
        requires
            old(self).wf(),
        ensures
            final(self).wf(),
            forall|q: TextPair| #[trigger] final(self).rule_table().contains(q) <==>
                (old(self).rule_table().contains(q) && q != (from_group@, to_group@)),
            final(self).entries() == old(self).entries(),
            final(self).group_table() == old(self).group_table(),
            final(self).relay() == old(self).relay(),
    {
        self.rules.remove(from_group, to_group);
    }

    /// All memberships `(node id, group)`, sorted by node id, then group.
    pub fn list_groups(&self) -> (v: Vec<(String, String)>)
        requires
            self.wf(),
        ensures
            pairs_view(v@) == self.group_table(),
            crate::pairs::strictly_sorted(pairs_view(v@)),
    {
        self.groups.to_vec()
    }

    /// All rules `(from group, to group)`, sorted by from group, then to group.
    pub fn list_rules(&self) -> (v: Vec<(String, String)>)
        requires
            self.wf(),
        ensures
            pairs_view(v@) == self.rule_table(),
            crate::pairs::strictly_sorted(pairs_view(v@)),
    {
        self.rules.to_vec()
    }

    /// Whether any rule exists.
    pub fn has_rules(&self) -> (r: bool)
        ensures
            r == (self.rule_table().len() > 0),
    {
        self.rules.len() > 0
    }

    /// The groups of node `node_id`, sorted.
    fn node_groups(&self, node_id: &str) -> (v: Vec<String>)
        ensures
            texts(v@) == seconds(self.group_table(), node_id@),
    {
        let v = self.groups.seconds_of(node_id);
        assert(texts(v@) =~= v@.map_values(|s: String| s@));
        v
    }

    /// The groups that members of `from_groups` may see, each once.
    fn visible_groups(&self, from_groups: &[String]) -> (v: Vec<String>)
        ensures
            texts_distinct(texts(v@)),
            forall|g: Seq<char>| #[trigger] texts(v@).contains(g) <==>
                exists|f: Seq<char>| #[trigger] texts(from_groups@).contains(f) && self.rule_table().contains((f, g)),
    {
        let mut result: Vec<String> = Vec::new();
        if from_groups.len() == 0 {
            proof {
                assert forall|g: Seq<char>| #[trigger] texts(result@).contains(g) <==>
                    exists|f: Seq<char>| #[trigger] texts(from_groups@).contains(f) && self.rule_table().contains((f, g)) by {
                    if exists|f: Seq<char>| #[trigger] texts(from_groups@).contains(f) && self.rule_table().contains((f, g)) {
                        let f = choose|f: Seq<char>| #[trigger] texts(from_groups@).contains(f) && self.rule_table().contains((f, g));
                        let k = choose|k: int| 0 <= k < texts(from_groups@).len() && texts(from_groups@)[k] == f;
                    }
                }
            }
            return result;
        }
        let mut i: usize = 0;
        while i < from_groups.len()
            invariant
                i <= from_groups@.len(),
                texts_distinct(texts(result@)),
                forall|g: Seq<char>| #[trigger] texts(result@).contains(g) <==>
                    exists|f: Seq<char>| #[trigger] texts(from_groups@.take(i as int)).contains(f) && self.rule_table().contains((f, g)),
            decreases from_groups.len() - i,
        {
            let fg = &from_groups[i];
            let tos = self.rules.seconds_of(fg.as_str());
            let ghost before_i = result@;
            let mut j: usize = 0;
            while j < tos.len()
                invariant
                    j <= tos@.len(),
                    texts(tos@) == seconds(self.rule_table(), fg@),
                    texts_distinct(texts(result@)),
                    forall|g: Seq<char>| #[trigger] texts(result@).contains(g) <==>
                        (texts(before_i).contains(g) || texts(tos@.take(j as int)).contains(g)),
                decreases tos.len() - j,
            {
                let t = &tos[j];
                let ghost prev = result@;
                let present = contains_text(&result, t.as_str());
                if !present {
                    result.push(t.clone());
                    proof {
                        assert(texts(result@) =~= texts(prev).push(t@));
                        assert forall|a: int, b: int| 0 <= a < b < texts(result@).len() implies texts(result@)[a] != texts(result@)[b] by {
                            if b == texts(prev).len() {
                                assert(texts(prev)[a] == texts(result@)[a]);
                            }
                        }
                    }
                }
                proof {
                    if present {
                        assert(result@ == prev);
                        assert(texts(prev).contains(t@));
                    }
                    assert(texts(tos@.take(j as int + 1)) =~= texts(tos@.take(j as int)).push(t@));
                    let tj = texts(tos@.take(j as int));
                    assert forall|g: Seq<char>| #[trigger] texts(result@).contains(g) <==>
                        (texts(before_i).contains(g) || texts(tos@.take(j as int + 1)).contains(g)) by {
                        assert(texts(prev).contains(g) <==> (texts(before_i).contains(g) || tj.contains(g)));
                        lemma_push_contains(tj, t@, g);
                        if !present {
                            lemma_push_contains(texts(prev), t@, g);
                        }
                    }
                }
                j = j + 1;
            }
            proof {
                assert(tos@.take(j as int) =~= tos@);
                let ft = texts(from_groups@.take(i as int));
                assert(texts(from_groups@.take(i as int + 1)) =~= ft.push(fg@));
                assert forall|g: Seq<char>| #[trigger] texts(result@).contains(g) <==>
                    exists|f: Seq<char>| #[trigger] texts(from_groups@.take(i as int + 1)).contains(f) && self.rule_table().contains((f, g)) by {
                    lemma_seconds_contains(self.rule_table(), fg@, g);
                    if texts(result@).contains(g) {
                        if texts(before_i).contains(g) {
                            let f = choose|f: Seq<char>| #[trigger] ft.contains(f) && self.rule_table().contains((f, g));
                            let k = choose|k: int| 0 <= k < ft.len() && ft[k] == f;
                            assert(ft.push(fg@)[k] == f);
                            assert(texts(from_groups@.take(i as int + 1)).contains(f));
                        } else {
                            assert(ft.push(fg@)[ft.len() as int] == fg@);
                            assert(texts(from_groups@.take(i as int + 1)).contains(fg@));
                        }
                    }
                    if exists|f: Seq<char>| #[trigger] texts(from_groups@.take(i as int + 1)).contains(f) && self.rule_table().contains((f, g)) {
                        let f = choose|f: Seq<char>| #[trigger] texts(from_groups@.take(i as int + 1)).contains(f) && self.rule_table().contains((f, g));
                        let k = choose|k: int| 0 <= k < ft.len() + 1 && ft.push(fg@)[k] == f;
                        if k < ft.len() {
                            assert(ft[k] == f);
                            assert(ft.contains(f));
                        } else {
                            lemma_seconds_contains(self.rule_table(), f, g);
                        }
                    }
                }
            }
            i = i + 1;
        }
        assert(from_groups@.take(i as int) =~= from_groups@);
        result
    }

    /// The peers shown to node `exclude_id` (or to the empty id): every other
    /// node it may see under the access-control tables, in registration order.
    pub fn get_peers(&self, exclude_id: Option<&str>) -> (v: Vec<PeerInfo>)
        requires
            self.wf(),
        ensures
            peers_view(v@) == visible_peers(self.group_table(), self.rule_table(), requester(exclude_id), self.entries()),
    {
        let exclude: &str = match exclude_id {
            Some(s) => s,
            None => "",
        };
        proof {
            reveal_strlit("");
        }
        let ghost me = exclude@;
        let ghost g = self.group_table();
        let ghost r = self.rule_table();
        assert(me == requester(exclude_id));
        let rules_exist = self.has_rules();
        let mut visible: Vec<String> = Vec::new();
        if rules_exist {
            let my_groups = self.node_groups(exclude);
            if my_groups.len() == 0 {
                proof {
                    assert forall|i: int| 0 <= i < self.entries().len() implies !sees(g, r, me, #[trigger] self.entries()[i].info.node_id) by {
                        if sees(g, r, me, self.entries()[i].info.node_id) {
                            let (mg, pg) = choose|mg: Seq<char>, pg: Seq<char>|
                                #![trigger g.contains((me, mg)), g.contains((self.entries()[i].info.node_id, pg))]
                                g.contains((me, mg)) && g.contains((self.entries()[i].info.node_id, pg)) && r.contains((mg, pg));
                            lemma_seconds_contains(g, me, mg);
                        }
                    }
                    lemma_visible_peers_none(g, r, me, self.entries());
                }
                return Vec::new();
            }
            visible = self.visible_groups(my_groups.as_slice());
            if visible.len() == 0 {
                proof {
                    assert forall|i: int| 0 <= i < self.entries().len() implies !sees(g, r, me, #[trigger] self.entries()[i].info.node_id) by {
                        if sees(g, r, me, self.entries()[i].info.node_id) {
                            let (mg, pg) = choose|mg: Seq<char>, pg: Seq<char>|
                                #![trigger g.contains((me, mg)), g.contains((self.entries()[i].info.node_id, pg))]
                                g.contains((me, mg)) && g.contains((self.entries()[i].info.node_id, pg)) && r.contains((mg, pg));
                            lemma_seconds_contains(g, me, mg);
                            assert(texts(my_groups@).contains(mg));
                            assert(texts(visible@).contains(pg));
                            let k = choose|k: int| 0 <= k < texts(visible@).len() && texts(visible@)[k] == pg;
                        }
                    }
                    lemma_visible_peers_none(g, r, me, self.entries());
                }
                return Vec::new();
            }
            proof {
                assert forall|p: Seq<char>| #![trigger sees(g, r, me, p)]
                    sees(g, r, me, p) <==> exists|x: Seq<char>| #[trigger] seconds(g, p).contains(x) && texts(visible@).contains(x) by {
                    if sees(g, r, me, p) {
                        let (mg, pg) = choose|mg: Seq<char>, pg: Seq<char>|
                            #![trigger g.contains((me, mg)), g.contains((p, pg))]
                            g.contains((me, mg)) && g.contains((p, pg)) && r.contains((mg, pg));
                        lemma_seconds_contains(g, me, mg);
                        lemma_seconds_contains(g, p, pg);
                        assert(texts(my_groups@).contains(mg));
                        assert(texts(visible@).contains(pg));
                        assert(seconds(g, p).contains(pg));
                    }
                    if exists|x: Seq<char>| #[trigger] seconds(g, p).contains(x) && texts(visible@).contains(x) {
                        let x = choose|x: Seq<char>| #[trigger] seconds(g, p).contains(x) && texts(visible@).contains(x);
                        lemma_seconds_contains(g, p, x);
                        let f = choose|f: Seq<char>| #[trigger] texts(my_groups@).contains(f) && r.contains((f, x));
                        lemma_seconds_contains(g, me, f);
                        assert(g.contains((me, f)) && g.contains((p, x)) && r.contains((f, x)));
                    }
                }
            }
        }
        let mut out: Vec<PeerInfo> = Vec::new();
        let mut i: usize = 0;
        while i < self.nodes.len()
            invariant
                i <= self.nodes@.len(),
                self.entries().len() == self.nodes@.len(),
                g == self.group_table(),
                r == self.rule_table(),
                me == exclude@,
                rules_exist == (r.len() > 0),
                rules_exist ==> forall|p: Seq<char>| #![trigger sees(g, r, me, p)]
                    sees(g, r, me, p) <==> exists|x: Seq<char>| #[trigger] seconds(g, p).contains(x) && texts(visible@).contains(x),
                peers_view(out@) == visible_peers(g, r, me, self.entries().take(i as int)),
            decreases self.nodes.len() - i,
        {
            let e = &self.nodes[i];
            proof {
                assert(self.entries()[i as int] == self.nodes@[i as int]@);
                assert(self.entries().take(i as int + 1).drop_last() =~= self.entries().take(i as int));
                assert(self.entries().take(i as int + 1).last() == self.entries()[i as int]);
            }
            let is_self = str_eq(e.info.node_id.as_str(), exclude);
            assert(e.info.node_id@ == self.entries()[i as int].info.node_id);
            assert(is_self == (self.entries()[i as int].info.node_id == me));
            assert(!rules_exist ==> sees(g, r, me, self.entries()[i as int].info.node_id));
            let keep = if is_self {
                false
            } else if !rules_exist {
                true
            } else {
                let peer_groups = self.node_groups(e.info.node_id.as_str());
                let shared = any_shared(&peer_groups, &visible);
                proof {
                    let p = e.info.node_id@;
                    assert(sees(g, r, me, p) <==> exists|x: Seq<char>| #[trigger] seconds(g, p).contains(x) && texts(visible@).contains(x));
                    if shared {
                        let x = choose|x: Seq<char>| #[trigger] texts(peer_groups@).contains(x) && texts(visible@).contains(x);
                        assert(seconds(g, p).contains(x));
                    }
                    if sees(g, r, me, p) {
                        let x = choose|x: Seq<char>| #[trigger] seconds(g, p).contains(x) && texts(visible@).contains(x);
                        assert(texts(peer_groups@).contains(x));
                    }
                }
                shared
            };
            assert(keep == (self.entries()[i as int].info.node_id != me && sees(g, r, me, self.entries()[i as int].info.node_id)));
            if keep {
                let ghost prev = out@;
                out.push(e.info.duplicate());
                assert(peers_view(out@) =~= peers_view(prev).push(self.entries()[i as int].info));
            }
            i = i + 1;
        }
        assert(self.entries().take(i as int) =~= self.entries());
        out
    }

    /// Every registered node, in registration order.
    pub fn all_nodes(&self) -> (v: Vec<PeerInfo>)
        ensures
            peers_view(v@) == self.entries().map_values(|e: NodeView| e.info),
    {
        let mut out: Vec<PeerInfo> = Vec::new();
        let mut i: usize = 0;
        while i < self.nodes.len()
            invariant
                i <= self.nodes@.len(),
                self.entries().len() == self.nodes@.len(),
                peers_view(out@) == self.entries().take(i as int).map_values(|e: NodeView| e.info),
            decreases self.nodes.len() - i,
        {
            let ghost prev = out@;
            assert(self.entries()[i as int] == self.nodes@[i as int]@);
            out.push(self.nodes[i].info.duplicate());
            assert(peers_view(out@) =~= peers_view(prev).push(self.entries()[i as int].info));
            assert(self.entries().take(i as int + 1).map_values(|e: NodeView| e.info)
                =~= self.entries().take(i as int).map_values(|e: NodeView| e.info).push(self.entries()[i as int].info));
            i = i + 1;
        }
        assert(self.entries().take(i as int) =~= self.entries());
        out
    }

    /// Whether `token` is the session token of node `node_id`.
    pub fn validate_session(&self, node_id: &str, token: &str) -> (r: bool)
        ensures
            r == session_valid(self.entries(), node_id@, token@),
    {
        match self.find(node_id) {
            Some(i) => {
                assert(self.entries()[i as int] == self.nodes@[i as int]@);
                str_eq(self.nodes[i].session_token.as_str(), token)
            },
            None => false,
        }
    }

    /// The information of node `node_id`.
    pub fn get_peer(&self, node_id: &str) -> (r: Option<PeerInfo>)
        ensures
            r is Some <==> index_of(self.entries(), node_id@) >= 0,
            r matches Some(p) ==> p@ == self.entries()[index_of(self.entries(), node_id@)].info,
    {
        match self.find(node_id) {
            Some(i) => {
                assert(self.entries()[i as int] == self.nodes@[i as int]@);
                Some(self.nodes[i].info.duplicate())
            },
            None => None,
        }
    }

    /// The relay address handed to nodes.
    pub fn relay_addr(&self) -> (r: &str)
        ensures
            r@ == self.relay(),
    {
        self.relay_addr.as_str()
    }
}


/// No two entries hold the same address.
pub open spec fn addresses_distinct(s: Seq<NodeView>) -> bool {
    forall|i: int, j: int| 0 <= i < j < s.len() ==> #[trigger] s[i].info.vpn_ip != #[trigger] s[j].info.vpn_ip
}

/// `index_of` is the first position holding `id`.
pub proof fn lemma_index_of_at(s: Seq<NodeView>, id: Seq<char>, i: int)
    requires
        0 <= i < s.len(),
        s[i].info.node_id == id,
        forall|k: int| 0 <= k < i ==> #[trigger] s[k].info.node_id != id,
    ensures
        index_of(s, id) == i,
{
    lemma_index_of(s, id);
    let f = index_of(s, id);
    if f < 0 {
        assert(s[i].info.node_id != id);
    } else if f < i {
        assert(s[f].info.node_id != id);
    } else if f > i {
        assert(s[i].info.node_id != id);
    }
}

/// `index_of` is -1 when no entry holds `id`.
pub proof fn lemma_index_of_absent(s: Seq<NodeView>, id: Seq<char>)
    requires
        forall|k: int| 0 <= k < s.len() ==> #[trigger] s[k].info.node_id != id,
    ensures
        index_of(s, id) == -1,
{
    lemma_index_of(s, id);
    if index_of(s, id) >= 0 {
        assert(s[index_of(s, id)].info.node_id != id);
    }
}

/// With distinct ids, the entry holding `id` is at `index_of`.
proof fn lemma_index_of_unique(s: Seq<NodeView>, id: Seq<char>, i: int)
    requires
        ids_unique(s),
        0 <= i < s.len(),
        s[i].info.node_id == id,
    ensures
        index_of(s, id) == i,
{
    assert forall|k: int| 0 <= k < i implies #[trigger] s[k].info.node_id != id by {
        assert(s[k].info.node_id != s[i].info.node_id);
    }
    lemma_index_of_at(s, id, i);
}

/// Where `upsert` puts an entry.
proof fn lemma_upsert(s: Seq<NodeView>, e: NodeView)
    requires
        ids_unique(s),
    ensures
        ids_unique(upsert(s, e)),
        index_of(upsert(s, e), e.info.node_id) >= 0,
        upsert(s, e)[index_of(upsert(s, e), e.info.node_id)] == e,
{
    let id0 = e.info.node_id;
    let k = index_of(s, id0);
    lemma_index_of(s, id0);
    let t = upsert(s, e);
    if k >= 0 {
        assert(t == s.update(k, e));
        assert forall|a: int, b: int| 0 <= a < b < t.len() implies #[trigger] t[a].info.node_id != #[trigger] t[b].info.node_id by {
            assert(t[a].info.node_id == s[a].info.node_id);
            assert(t[b].info.node_id == s[b].info.node_id);
        }
        lemma_index_of_unique(t, id0, k);
    } else {
        assert(t == s.push(e));
        assert forall|a: int, b: int| 0 <= a < b < t.len() implies #[trigger] t[a].info.node_id != #[trigger] t[b].info.node_id by {
            if b == s.len() {
                assert(t[a] == s[a]);
                assert(s[a].info.node_id != id0);
            } else {
                assert(t[a] == s[a] && t[b] == s[b]);
            }
        }
        lemma_index_of_unique(t, id0, s.len() as int);
    }
}

/// `upsert` leaves the other entries in their places.
proof fn lemma_upsert_other(s: Seq<NodeView>, e: NodeView, id: Seq<char>)
    requires
        ids_unique(s),
        id != e.info.node_id,
    ensures
        index_of(upsert(s, e), id) == index_of(s, id),
        index_of(s, id) >= 0 ==> upsert(s, e)[index_of(s, id)] == s[index_of(s, id)],
{
    let k = index_of(s, e.info.node_id);
    lemma_index_of(s, e.info.node_id);
    lemma_index_of(s, id);
    let t = upsert(s, e);
    let j = index_of(s, id);
    if j >= 0 {
        assert(j != k);
        assert(t[j] == s[j]);
        lemma_upsert(s, e);
        lemma_index_of_unique(t, id, j);
    } else {
        assert forall|m: int| 0 <= m < t.len() implies #[trigger] t[m].info.node_id != id by {
            if m < s.len() && m != k {
                assert(t[m] == s[m]);
            }
        }
        lemma_index_of_absent(t, id);
    }
}

/// A node that has just registered holds a valid session under the token it
/// was given, and the sessions of all other nodes are as before.
pub proof fn lemma_registration_opens_session(
    s: Seq<NodeView>,
    id: Seq<char>,
    name: Seq<char>,
    ip: Seq<char>,
    public_key: Seq<char>,
    token: Seq<char>,
    now: u64,
)
    requires
        ids_unique(s),
    ensures
        session_valid(upsert(s, fresh_node(id, name, ip, public_key, token, now)), id, token),
        forall|other: Seq<char>, t: Seq<char>| other != id ==>
            #[trigger] session_valid(upsert(s, fresh_node(id, name, ip, public_key, token, now)), other, t)
                == session_valid(s, other, t),
{
    let e = fresh_node(id, name, ip, public_key, token, now);
    lemma_upsert(s, e);
    assert forall|other: Seq<char>, t: Seq<char>| other != id implies
        #[trigger] session_valid(upsert(s, e), other, t) == session_valid(s, other, t) by {
        lemma_upsert_other(s, e, other);
    }
}

/// Registration never hands out an address another node holds: if no two
/// nodes shared an address before, none do after.
pub proof fn lemma_registration_keeps_addresses_distinct(
    s: Seq<NodeView>,
    id: Seq<char>,
    name: Seq<char>,
    ip: Seq<char>,
    public_key: Seq<char>,
    token: Seq<char>,
    now: u64,
    k: int,
)
    requires
        ids_unique(s),
        addresses_distinct(s),
        is_lowest_free(s, k),
        ip == candidate_ip(k),
    ensures
        addresses_distinct(upsert(s, fresh_node(id, name, ip, public_key, token, now))),
{
    let e = fresh_node(id, name, ip, public_key, token, now);
    let t = upsert(s, e);
    let p = index_of(s, id);
    lemma_index_of(s, id);
    assert forall|a: int, b: int| 0 <= a < b < t.len() implies #[trigger] t[a].info.vpn_ip != #[trigger] t[b].info.vpn_ip by {
        if p >= 0 {
            if a == p {
                assert(s[b].info.vpn_ip == t[b].info.vpn_ip);
            } else if b == p {
                assert(s[a].info.vpn_ip == t[a].info.vpn_ip);
            } else {
                assert(t[a] == s[a] && t[b] == s[b]);
            }
        } else if b == s.len() {
            assert(t[a] == s[a]);
        } else {
            assert(t[a] == s[a] && t[b] == s[b]);
        }
    }
}

/// Removing a node frees its address for the next registration, unless
/// another node holds the same address.
pub proof fn lemma_removal_frees_address(s: Seq<NodeView>, id: Seq<char>)
    requires
        addresses_distinct(s),
        index_of(s, id) >= 0,
    ensures
        !ip_in_use(node_removed(s, id), s[index_of(s, id)].info.vpn_ip),
{
    lemma_index_of(s, id);
    let k = index_of(s, id);
    let ip = s[k].info.vpn_ip;
    let t = node_removed(s, id);
    assert(t == s.remove(k));
    if ip_in_use(t, ip) {
        let j = choose|j: int| 0 <= j < t.len() && #[trigger] t[j].info.vpn_ip == ip;
        if j < k {
            assert(t[j] == s[j]);
        } else {
            assert(t[j] == s[j + 1]);
        }
    }
}

/// After node `id` reports an endpoint, its entry stays where it was and
/// shows that endpoint.
pub proof fn lemma_endpoint_recorded(s: Seq<NodeView>, id: Seq<char>, endpoint: Seq<char>, now: u64)
    ensures
        index_of(endpoint_updated(s, id, endpoint, now), id) == index_of(s, id),
        index_of(s, id) >= 0 ==>
            endpoint_updated(s, id, endpoint, now)[index_of(s, id)].info.endpoint == endpoint,
{
    lemma_index_of(s, id);
    let k = index_of(s, id);
    if k >= 0 {
        let t = endpoint_updated(s, id, endpoint, now);
        assert forall|m: int| 0 <= m < k implies #[trigger] t[m].info.node_id != id by {
            assert(t[m] == s[m]);
        }
        lemma_index_of_at(t, id, k);
    }
}

proof fn lemma_after_reap_keeps(s: Seq<NodeView>, now: u64, i: int)
    requires
        0 <= i < s.len(),
        elapsed(now, s[i].last_heartbeat) <= offline_after(),
    ensures
        after_reap(s, now).contains(s[i]),
    decreases s.len(),
{
    let r = after_reap(s.drop_last(), now);
    if i == s.len() - 1 {
        assert(after_reap(s, now) == r.push(s[i]));
        assert(after_reap(s, now)[r.len() as int] == s[i]);
    } else {
        assert(s.drop_last()[i] == s[i]);
        lemma_after_reap_keeps(s.drop_last(), now, i);
        let j = choose|j: int| 0 <= j < r.len() && r[j] == s[i];
        assert(after_reap(s, now)[j] == s[i]);
    }
}

proof fn lemma_after_reap_offline(s: Seq<NodeView>, now: u64)
    ensures
        forall|j: int| 0 <= j < after_reap(s, now).len() ==> {
            &&& elapsed(now, #[trigger] after_reap(s, now)[j].last_heartbeat) <= delete_after()
            &&& elapsed(now, after_reap(s, now)[j].last_heartbeat) > offline_after() ==> !after_reap(s, now)[j].info.connected
        },
    decreases s.len(),
{
    if s.len() > 0 {
        lemma_after_reap_offline(s.drop_last(), now);
        let r = after_reap(s.drop_last(), now);
        assert forall|j: int| 0 <= j < after_reap(s, now).len() implies {
            &&& elapsed(now, #[trigger] after_reap(s, now)[j].last_heartbeat) <= delete_after()
            &&& elapsed(now, after_reap(s, now)[j].last_heartbeat) > offline_after() ==> !after_reap(s, now)[j].info.connected
        } by {
            if j < r.len() {
                assert(after_reap(s, now)[j] == r[j]);
            }
        }
    }
}

/// After a reaping pass, every node left has been heard from within a day,
/// and every node silent for more than a minute is offline.
pub proof fn lemma_reaped_silent_offline(s: Seq<NodeView>, now: u64)
    ensures
        forall|j: int| 0 <= j < after_reap(s, now).len() ==>
            elapsed(now, #[trigger] after_reap(s, now)[j].last_heartbeat) <= delete_after(),
        forall|j: int| 0 <= j < after_reap(s, now).len()
            && elapsed(now, #[trigger] after_reap(s, now)[j].last_heartbeat) > offline_after()
            ==> !after_reap(s, now)[j].info.connected,
{
    lemma_after_reap_offline(s, now);
}

/// A node whose last heartbeat came at most a minute before a reaping pass
/// is still registered and online after it.
pub proof fn lemma_heartbeat_keeps_online(s: Seq<NodeView>, id: Seq<char>, beat: u64, now: u64)
    requires
        ids_unique(s),
        index_of(s, id) >= 0,
        beat <= now,
        now - beat <= offline_after(),
    ensures
        index_of(after_reap(heartbeat_recorded(s, id, beat), now), id) >= 0,
        after_reap(heartbeat_recorded(s, id, beat), now)[index_of(after_reap(heartbeat_recorded(s, id, beat), now), id)].info.connected,
{
    lemma_index_of(s, id);
    let k = index_of(s, id);
    let s1 = heartbeat_recorded(s, id, beat);
    let e = with_heartbeat(s[k], beat);
    assert(s1 == s.update(k, e));
    assert(ids_unique(s1)) by {
        assert forall|a: int, b: int| 0 <= a < b < s1.len() implies #[trigger] s1[a].info.node_id != #[trigger] s1[b].info.node_id by {
            assert(s1[a].info.node_id == s[a].info.node_id);
            assert(s1[b].info.node_id == s[b].info.node_id);
        }
    }
    lemma_after_reap_keeps(s1, now, k);
    lemma_after_reap_ids(s1, now);
    let s2 = after_reap(s1, now);
    let j = choose|j: int| 0 <= j < s2.len() && s2[j] == e;
    lemma_index_of_unique(s2, id, j);
}


/// What `visible_peers` holds: exactly the other nodes `me` sees.
proof fn lemma_visible_peers_members(groups: Seq<TextPair>, rules: Seq<TextPair>, me: Seq<char>, s: Seq<NodeView>)
    ensures
        forall|x: PeerInfoView| #[trigger] visible_peers(groups, rules, me, s).contains(x) ==>
            exists|i: int| 0 <= i < s.len() && #[trigger] s[i].info == x && x.node_id != me && sees(groups, rules, me, x.node_id),
        forall|i: int| 0 <= i < s.len() && s[i].info.node_id != me && sees(groups, rules, me, s[i].info.node_id) ==>
            visible_peers(groups, rules, me, s).contains(#[trigger] s[i].info),
    decreases s.len(),
{
    if s.len() > 0 {
        let p = s.drop_last();
        lemma_visible_peers_members(groups, rules, me, p);
        let r = visible_peers(groups, rules, me, p);
        let v = visible_peers(groups, rules, me, s);
        let e = s.last();
        assert forall|x: PeerInfoView| #[trigger] v.contains(x) implies
            exists|i: int| 0 <= i < s.len() && #[trigger] s[i].info == x && x.node_id != me && sees(groups, rules, me, x.node_id) by {
            let m = choose|m: int| 0 <= m < v.len() && v[m] == x;
            if m < r.len() {
                assert(v[m] == r[m]);
                assert(r.contains(x));
                let i = choose|i: int| 0 <= i < p.len() && #[trigger] p[i].info == x && x.node_id != me && sees(groups, rules, me, x.node_id);
                assert(s[i] == p[i]);
            } else {
                assert(x == e.info);
                assert(s[s.len() - 1].info == x);
            }
        }
        assert forall|i: int| 0 <= i < s.len() && s[i].info.node_id != me && sees(groups, rules, me, s[i].info.node_id) implies
            v.contains(#[trigger] s[i].info) by {
            if i < p.len() {
                assert(p[i] == s[i]);
                assert(r.contains(p[i].info));
                let m = choose|m: int| 0 <= m < r.len() && r[m] == s[i].info;
                assert(v[m] == s[i].info);
            } else {
                assert(v[v.len() - 1] == s[i].info);
            }
        }
    }
}

/// Without rules, a node is shown every other node.
pub proof fn lemma_no_rules_everyone_visible(groups: Seq<TextPair>, me: Seq<char>, s: Seq<NodeView>)
    ensures
        forall|i: int| 0 <= i < s.len() && s[i].info.node_id != me ==>
            visible_peers(groups, Seq::empty(), me, s).contains(#[trigger] s[i].info),
{
    lemma_visible_peers_members(groups, Seq::empty(), me, s);
}

/// A node is never shown itself.
pub proof fn lemma_never_shown_self(groups: Seq<TextPair>, rules: Seq<TextPair>, me: Seq<char>, s: Seq<NodeView>)
    ensures
        forall|x: PeerInfoView| #[trigger] visible_peers(groups, rules, me, s).contains(x) ==> x.node_id != me,
{
    lemma_visible_peers_members(groups, rules, me, s);
}

/// With rules in place, a node is shown a peer when one of its groups has a
/// rule to one of the peer's groups.
pub proof fn lemma_rule_grants_visibility(
    groups: Seq<TextPair>,
    rules: Seq<TextPair>,
    me: Seq<char>,
    s: Seq<NodeView>,
    i: int,
    my_group: Seq<char>,
    peer_group: Seq<char>,
)
    requires
        0 <= i < s.len(),
        s[i].info.node_id != me,
        groups.contains((me, my_group)),
        groups.contains((s[i].info.node_id, peer_group)),
        rules.contains((my_group, peer_group)),
    ensures
        visible_peers(groups, rules, me, s).contains(s[i].info),
{
    lemma_visible_peers_members(groups, rules, me, s);
    assert(sees(groups, rules, me, s[i].info.node_id));
}

/// Access is denied by default: once any rule exists, a node none of whose
/// groups has a rule (in particular a node in no group) is shown no peer.
/// Rules work in one direction only.
pub proof fn lemma_denied_without_rule(groups: Seq<TextPair>, rules: Seq<TextPair>, me: Seq<char>, s: Seq<NodeView>)
    requires
        rules.len() > 0,
        forall|my_group: Seq<char>, to: Seq<char>| #[trigger] groups.contains((me, my_group)) ==> !#[trigger] rules.contains((my_group, to)),
    ensures
        visible_peers(groups, rules, me, s) == Seq::<PeerInfoView>::empty(),
{
    assert forall|i: int| 0 <= i < s.len() implies !sees(groups, rules, me, #[trigger] s[i].info.node_id) by {
        let p = s[i].info.node_id;
        if sees(groups, rules, me, p) {
            let (mg, pg) = choose|mg: Seq<char>, pg: Seq<char>|
                #![trigger groups.contains((me, mg)), groups.contains((p, pg))]
                groups.contains((me, mg)) && groups.contains((p, pg)) && rules.contains((mg, pg));
        }
    }
    lemma_visible_peers_none(groups, rules, me, s);
}


/// A consistent registry holds each node id once, and its access-control
/// tables are strictly sorted (so each membership and rule occurs once).
pub proof fn lemma_wf_facts(reg: &Registry)
    requires
        reg.wf(),
    ensures
        ids_unique(reg.entries()),
        crate::pairs::strictly_sorted(reg.group_table()),
        crate::pairs::strictly_sorted(reg.rule_table()),
{
}

/// The peer list exactly: a node is listed iff it is another node that
/// `me` sees, each node at most once, as registered; without rules that is
/// every other node, with rules every other node one of whose groups a
/// group of `me` has a rule to.
pub proof fn lemma_visible_peers_exact(groups: Seq<TextPair>, rules: Seq<TextPair>, me: Seq<char>, s: Seq<NodeView>)
    requires
        ids_unique(s),
    ensures
        forall|x: PeerInfoView| #[trigger] visible_peers(groups, rules, me, s).contains(x) <==>
            exists|i: int| 0 <= i < s.len() && #[trigger] s[i].info == x && x.node_id != me && sees(groups, rules, me, x.node_id),
        forall|i: int, j: int| 0 <= i < j < visible_peers(groups, rules, me, s).len() ==>
            #[trigger] visible_peers(groups, rules, me, s)[i].node_id != #[trigger] visible_peers(groups, rules, me, s)[j].node_id,
        rules.len() == 0 ==> forall|p: Seq<char>| p != me ==> #[trigger] sees(groups, rules, me, p),
        rules.len() > 0 ==> forall|p: Seq<char>| #[trigger] sees(groups, rules, me, p) <==>
            exists|f: Seq<char>, g: Seq<char>| #![trigger groups.contains((me, f)), groups.contains((p, g))]
                groups.contains((me, f)) && groups.contains((p, g)) && rules.contains((f, g)),
    decreases s.len(),
{
    lemma_visible_peers_members(groups, rules, me, s);
    let v = visible_peers(groups, rules, me, s);
    assert forall|x: PeerInfoView| #[trigger] v.contains(x) <==>
        exists|i: int| 0 <= i < s.len() && #[trigger] s[i].info == x && x.node_id != me && sees(groups, rules, me, x.node_id) by {
        if exists|i: int| 0 <= i < s.len() && #[trigger] s[i].info == x && x.node_id != me && sees(groups, rules, me, x.node_id) {
            let i = choose|i: int| 0 <= i < s.len() && #[trigger] s[i].info == x && x.node_id != me && sees(groups, rules, me, x.node_id);
            assert(v.contains(s[i].info));
        }
    }
    if s.len() > 0 {
        let p = s.drop_last();
        assert(ids_unique(p)) by {
            assert forall|a: int, b: int| 0 <= a < b < p.len() implies #[trigger] p[a].info.node_id != #[trigger] p[b].info.node_id by {
                assert(p[a] == s[a] && p[b] == s[b]);
            }
        }
        lemma_visible_peers_exact(groups, rules, me, p);
        lemma_visible_peers_members(groups, rules, me, p);
        let r = visible_peers(groups, rules, me, p);
        let e = s.last();
        if e.info.node_id != me && sees(groups, rules, me, e.info.node_id) {
            assert(v == r.push(e.info));
            assert forall|i: int, j: int| 0 <= i < j < v.len() implies #[trigger] v[i].node_id != #[trigger] v[j].node_id by {
                if j < r.len() {
                    assert(v[i] == r[i] && v[j] == r[j]);
                } else {
                    assert(v[i] == r[i]);
                    assert(r.contains(r[i]));
                    let k = choose|k: int| 0 <= k < p.len() && #[trigger] p[k].info == r[i] && r[i].node_id != me && sees(groups, rules, me, r[i].node_id);
                    assert(p[k] == s[k]);
                    assert(s[k].info.node_id != s[s.len() - 1].info.node_id);
                }
            }
        } else {
            assert(v == r);
        }
    }
}


/// The entries with node `id` marked offline; unchanged if there is no
/// such node.
pub open spec fn marked_offline_at(s: Seq<NodeView>, id: Seq<char>) -> Seq<NodeView> {
    let k = index_of(s, id);
    if k >= 0 { s.update(k, marked_offline(s[k])) } else { s }
}

/// What the store does with the stored nodes `s` on change `c`: a
/// registration stores the new node, an endpoint update or heartbeat
/// updates the node's row, going offline marks it, a deletion drops it;
/// changes of the access-control tables leave the nodes alone.
pub open spec fn replayed(s: Seq<NodeView>, c: StoreChange) -> Seq<NodeView> {
    match c {
        StoreChange::NodeRegistered { node_id, name, vpn_ip, public_key, session_token, last_heartbeat } =>
            upsert(s, fresh_node(node_id@, name@, vpn_ip@, public_key@, session_token@, last_heartbeat)),
        StoreChange::EndpointUpdated { node_id, endpoint, last_heartbeat } => endpoint_updated(s, node_id@, endpoint@, last_heartbeat),
        StoreChange::HeartbeatRecorded { node_id, last_heartbeat } => heartbeat_recorded(s, node_id@, last_heartbeat),
        StoreChange::NodeOffline { node_id } => marked_offline_at(s, node_id@),
        StoreChange::NodeDeleted { node_id } => node_removed(s, node_id@),
        _ => s,
    }
}

/// The stored nodes after the reaping changes `cs`, `(id, deleted)`, in order.
pub open spec fn reaps_replayed(s: Seq<NodeView>, cs: Seq<(Seq<char>, bool)>) -> Seq<NodeView>
    decreases cs.len(),
{
    if cs.len() == 0 {
        s
    } else {
        let t = reaps_replayed(s, cs.drop_last());
        if cs.last().1 { node_removed(t, cs.last().0) } else { marked_offline_at(t, cs.last().0) }
    }
}

proof fn lemma_index_of_push_other(q: Seq<NodeView>, e: NodeView, id: Seq<char>)
    requires
        id != e.info.node_id,
    ensures
        index_of(q.push(e), id) == index_of(q, id),
{
    lemma_index_of(q, id);
    let k = index_of(q, id);
    if k >= 0 {
        assert forall|m: int| 0 <= m < k implies #[trigger] q.push(e)[m].info.node_id != id by {
            assert(q.push(e)[m] == q[m]);
        }
        assert(q.push(e)[k] == q[k]);
        lemma_index_of_at(q.push(e), id, k);
    } else {
        assert forall|m: int| 0 <= m < q.push(e).len() implies #[trigger] q.push(e)[m].info.node_id != id by {
            if m < q.len() {
                assert(q.push(e)[m] == q[m]);
            }
        }
        lemma_index_of_absent(q.push(e), id);
    }
}

proof fn lemma_reaps_replayed_push(q: Seq<NodeView>, cs: Seq<(Seq<char>, bool)>, e: NodeView)
    requires
        forall|i: int| 0 <= i < cs.len() ==> (#[trigger] cs[i]).0 != e.info.node_id,
    ensures
        reaps_replayed(q.push(e), cs) == reaps_replayed(q, cs).push(e),
    decreases cs.len(),
{
    if cs.len() > 0 {
        let c1 = cs.drop_last();
        assert forall|i: int| 0 <= i < c1.len() implies (#[trigger] c1[i]).0 != e.info.node_id by {
            assert(c1[i] == cs[i]);
        }
        lemma_reaps_replayed_push(q, c1, e);
        let t = reaps_replayed(q, c1);
        let id = cs.last().0;
        assert(cs[cs.len() - 1].0 != e.info.node_id);
        lemma_index_of_push_other(t, e, id);
        lemma_index_of(t, id);
        let k = index_of(t, id);
        if cs.last().1 {
            if k >= 0 {
                assert(t.push(e).remove(k) =~= t.remove(k).push(e));
            }
        } else {
            if k >= 0 {
                assert(t.push(e).update(k, marked_offline(t.push(e)[k])) =~= t.update(k, marked_offline(t[k])).push(e));
            }
        }
    }
}

proof fn lemma_reap_changes_ids(s: Seq<NodeView>, now: u64)
    ensures
        forall|i: int| 0 <= i < reap_changes(s, now).len() ==>
            exists|j: int| 0 <= j < s.len() && s[j].info.node_id == (#[trigger] reap_changes(s, now)[i]).0,
    decreases s.len(),
{
    if s.len() > 0 {
        let p = s.drop_last();
        lemma_reap_changes_ids(p, now);
        let r = reap_changes(p, now);
        assert forall|i: int| 0 <= i < reap_changes(s, now).len() implies
            exists|j: int| 0 <= j < s.len() && s[j].info.node_id == (#[trigger] reap_changes(s, now)[i]).0 by {
            if i < r.len() {
                assert(reap_changes(s, now)[i] == r[i]);
                let j = choose|j: int| 0 <= j < p.len() && p[j].info.node_id == (#[trigger] r[i]).0;
                assert(s[j] == p[j]);
            } else {
                assert(reap_changes(s, now)[i].0 == s[s.len() - 1].info.node_id);
            }
        }
    }
}

/// Replaying what a reaping pass reports on the stored nodes gives the
/// nodes the pass leaves.
pub proof fn lemma_reaps_replayed(s: Seq<NodeView>, now: u64)
    requires
        ids_unique(s),
    ensures
        reaps_replayed(s, reap_changes(s, now)) == after_reap(s, now),
    decreases s.len(),
{
    if s.len() > 0 {
        let p = s.drop_last();
        let e = s.last();
        assert(s == p.push(e));
        assert(ids_unique(p)) by {
            assert forall|a: int, b: int| 0 <= a < b < p.len() implies #[trigger] p[a].info.node_id != #[trigger] p[b].info.node_id by {
                assert(p[a] == s[a] && p[b] == s[b]);
            }
        }
        lemma_reaps_replayed(p, now);
        let cp = reap_changes(p, now);
        lemma_reap_changes_ids(p, now);
        assert forall|i: int| 0 <= i < cp.len() implies (#[trigger] cp[i]).0 != e.info.node_id by {
            let j = choose|j: int| 0 <= j < p.len() && p[j].info.node_id == cp[i].0;
            assert(p[j] == s[j]);
            assert(s[j].info.node_id != s[s.len() - 1].info.node_id);
        }
        lemma_reaps_replayed_push(p, cp, e);
        let ap = after_reap(p, now);
        assert(reaps_replayed(s, cp) == ap.push(e));
        lemma_after_reap_ids(p, now);
        assert forall|m: int| 0 <= m < ap.len() implies #[trigger] ap.push(e)[m].info.node_id != e.info.node_id by {
            assert(ap.push(e)[m] == ap[m]);
            let j = choose|j: int| 0 <= j < p.len() && p[j].info.node_id == ap[m].info.node_id;
            assert(p[j] == s[j]);
        }
        if elapsed(now, e.last_heartbeat) > offline_after() {
            lemma_index_of_at(ap.push(e), e.info.node_id, ap.len() as int);
            if elapsed(now, e.last_heartbeat) > delete_after() {
                assert(reap_changes(s, now) == cp.push((e.info.node_id, true)));
                assert(cp.push((e.info.node_id, true)).drop_last() =~= cp);
                assert(ap.push(e).remove(ap.len() as int) =~= ap);
                assert(after_reap(s, now) == ap);
            } else {
                assert(reap_changes(s, now) == cp.push((e.info.node_id, false)));
                assert(cp.push((e.info.node_id, false)).drop_last() =~= cp);
                assert(ap.push(e)[ap.len() as int] == e);
                assert(ap.push(e).update(ap.len() as int, marked_offline(e)) =~= ap.push(marked_offline(e)));
                assert(after_reap(s, now) == ap.push(marked_offline(e)));
            }
        } else {
            assert(reap_changes(s, now) == cp);
            assert(after_reap(s, now) == ap.push(e));
        }
    }
}

/// Rebuilding a registry from stored nodes with distinct ids, one by one
/// as they come, gives back the same nodes in the same order.
pub open spec fn reloaded(rows: Seq<NodeView>) -> Seq<NodeView>
    decreases rows.len(),
{
    if rows.len() == 0 {
        Seq::empty()
    } else {
        upsert(reloaded(rows.drop_last()), rows.last())
    }
}

/// A restart that inserts the stored nodes into an empty registry gets
/// back exactly the nodes stored.
pub proof fn lemma_reload_restores(rows: Seq<NodeView>)
    requires
        ids_unique(rows),
    ensures
        reloaded(rows) == rows,
    decreases rows.len(),
{
    if rows.len() > 0 {
        let p = rows.drop_last();
        assert(ids_unique(p)) by {
            assert forall|a: int, b: int| 0 <= a < b < p.len() implies #[trigger] p[a].info.node_id != #[trigger] p[b].info.node_id by {
                assert(p[a] == rows[a] && p[b] == rows[b]);
            }
        }
        lemma_reload_restores(p);
        let e = rows.last();
        assert forall|m: int| 0 <= m < p.len() implies #[trigger] p[m].info.node_id != e.info.node_id by {
            assert(p[m] == rows[m]);
        }
        lemma_index_of_absent(p, e.info.node_id);
        assert(p.push(e) =~= rows);
    }
}

} // verus!
