//! The relay's forwarding decisions. Nodes register with
//! `REGISTER:<my_id>:<peer_id>`; later packets are attributed to a node by
//! their source IP, the node's real WireGuard endpoint is learned from the
//! traffic it sends (port roaming), and each packet goes to every peer the
//! node registered for whose endpoint is known (fan-out).

use vstd::prelude::*;
use crate::net::{IpAddress, SocketAddress};
use crate::text::{decode_lossy, text_chars, push_char, str_eq, texts, utf8_lossy};

verus! {

/// The position of the first element of `s` that satisfies `p`, or -1.
pub open spec fn find_first<A>(s: Seq<A>, p: spec_fn(A) -> bool) -> int
    decreases s.len(),
{
    if s.len() == 0 {
        -1
    } else if p(s[0]) {
        0
    } else {
        let r = find_first(s.drop_first(), p);
        if r < 0 { -1 } else { r + 1 }
    }
}

/// What `find_first` finds.
pub proof fn lemma_find_first<A>(s: Seq<A>, p: spec_fn(A) -> bool)
    ensures
        -1 <= find_first(s, p) < s.len(),
        find_first(s, p) >= 0 ==> p(s[find_first(s, p)]),
        forall|k: int| 0 <= k < s.len() && (find_first(s, p) < 0 || k < find_first(s, p)) ==> !p(#[trigger] s[k]),
    decreases s.len(),
{
    if s.len() > 0 && !p(s[0]) {
        lemma_find_first(s.drop_first(), p);
        assert forall|k: int| 0 <= k < s.len() && (find_first(s, p) < 0 || k < find_first(s, p)) implies !p(#[trigger] s[k]) by {
            if k > 0 {
                assert(s[k] == s.drop_first()[k - 1]);
            }
        }
    }
}

/// A node known to the relay.
pub struct RelayNode {
    pub node_id: String,
    /// The peers this node registered to reach, each once.
    pub peer_ids: Vec<String>,
    /// The node's WireGuard endpoint as last seen.
    pub wg_addr: Option<SocketAddress>,
    /// Seconds since the Unix epoch of the node's last packet.
    pub last_activity: u64,
}

/// The contents of a [`RelayNode`].
pub struct RelayNodeView {
    pub node_id: Seq<char>,
    pub peer_ids: Seq<Seq<char>>,
    pub wg_addr: Option<SocketAddress>,
    pub last_activity: u64,
}

impl View for RelayNode {
    type V = RelayNodeView;

    open spec fn view(&self) -> RelayNodeView {
        RelayNodeView {
            node_id: self.node_id@,
            peer_ids: texts(self.peer_ids@),
            wg_addr: self.wg_addr,
            last_activity: self.last_activity,
        }
    }
}

/// The relay's state: its nodes, and which node each source IP belongs to.
pub struct RelayView {
    pub nodes: Seq<RelayNodeView>,
    pub ip_index: Seq<(IpAddress, Seq<char>)>,
}

/// The relay's forwarding state.
pub struct Relay {
    nodes: Vec<RelayNode>,
    ip_index: Vec<(IpAddress, String)>,
}

/// What the relay does with a datagram.
#[derive(Debug)]
pub enum RelayAction {
    /// Answer `OK` to the sender.
    Acknowledge,
    /// Send the datagram, unchanged, to each of these addresses.
    Forward(Vec<SocketAddress>),
}

/// A node is forgotten after this many seconds without a packet.
pub open spec fn node_timeout() -> int {
    30
}

/// The position of node `id`, or -1.
pub open spec fn node_pos(nodes: Seq<RelayNodeView>, id: Seq<char>) -> int {
    find_first(nodes, |n: RelayNodeView| n.node_id == id)
}

/// The position of `ip` in the index, or -1.
pub open spec fn ip_pos(index: Seq<(IpAddress, Seq<char>)>, ip: IpAddress) -> int
    decreases index.len(),
{
    if index.len() == 0 {
        -1
    } else if index[0].0 == ip {
        0
    } else {
        let r = ip_pos(index.drop_first(), ip);
        if r < 0 { -1 } else { r + 1 }
    }
}

/// What `ip_pos` finds.
pub proof fn lemma_ip_pos(index: Seq<(IpAddress, Seq<char>)>, ip: IpAddress)
    ensures
        -1 <= ip_pos(index, ip) < index.len(),
        ip_pos(index, ip) >= 0 ==> index[ip_pos(index, ip)].0 == ip,
        forall|k: int| 0 <= k < index.len() && (ip_pos(index, ip) < 0 || k < ip_pos(index, ip)) ==> #[trigger] index[k].0 != ip,
    decreases index.len(),
{
    if index.len() > 0 && index[0].0 != ip {
        lemma_ip_pos(index.drop_first(), ip);
        assert forall|k: int| 0 <= k < index.len() && (ip_pos(index, ip) < 0 || k < ip_pos(index, ip)) implies #[trigger] index[k].0 != ip by {
            if k > 0 {
                assert(index[k] == index.drop_first()[k - 1]);
            }
        }
    }
}

/// The node that packets from `ip` are attributed to.
pub open spec fn ip_owner(index: Seq<(IpAddress, Seq<char>)>, ip: IpAddress) -> Option<Seq<char>> {
    if ip_pos(index, ip) >= 0 { Some(index[ip_pos(index, ip)].1) } else { None }
}

/// The index with `ip` attributed to `id`.
pub open spec fn index_insert(index: Seq<(IpAddress, Seq<char>)>, ip: IpAddress, id: Seq<char>) -> Seq<(IpAddress, Seq<char>)> {
    if ip_pos(index, ip) >= 0 { index.update(ip_pos(index, ip), (ip, id)) } else { index.push((ip, id)) }
}

/// `s` with `x` added unless present.
pub open spec fn set_add(s: Seq<Seq<char>>, x: Seq<char>) -> Seq<Seq<char>> {
    if s.contains(x) { s } else { s.push(x) }
}

/// The state after node `my` registers, from `from` at `now`, to reach `peer`.
pub open spec fn registered(v: RelayView, from: SocketAddress, my: Seq<char>, peer: Seq<char>, now: u64) -> RelayView {
    let k = node_pos(v.nodes, my);
    RelayView {
        nodes: if k >= 0 {
            v.nodes.update(k, RelayNodeView {
                node_id: my,
                peer_ids: set_add(v.nodes[k].peer_ids, peer),
                wg_addr: Some(from),
                last_activity: now,
            })
        } else {
            v.nodes.push(RelayNodeView { node_id: my, peer_ids: seq![peer], wg_addr: Some(from), last_activity: now })
        },
        ip_index: index_insert(v.ip_index, from.ip, my),
    }
}

/// The known endpoints of the peers `pids`, in order.
pub open spec fn peer_addrs(nodes: Seq<RelayNodeView>, pids: Seq<Seq<char>>) -> Seq<SocketAddress>
    decreases pids.len(),
{
    if pids.len() == 0 {
        Seq::empty()
    } else {
        let r = peer_addrs(nodes, pids.drop_last());
        let j = node_pos(nodes, pids.last());
        if j >= 0 && nodes[j].wg_addr is Some {
            r.push(nodes[j].wg_addr->0)
        } else {
            r
        }
    }
}

/// The destinations of a data packet from `from` at `now`, and the state
/// after it: the packet is attributed to the node its source IP belongs
/// to, that node's endpoint becomes `from`, and the packet goes to the known
/// endpoints of all peers the node registered for. A packet from an IP no
/// node owns goes nowhere and changes nothing.
pub open spec fn forwarded(v: RelayView, from: SocketAddress, now: u64) -> (Seq<SocketAddress>, RelayView) {
    match ip_owner(v.ip_index, from.ip) {
        None => (Seq::empty(), v),
        Some(id) => {
            let k = node_pos(v.nodes, id);
            if k < 0 {
                (Seq::empty(), v)
            } else {
                let nodes2 = v.nodes.update(k, RelayNodeView { wg_addr: Some(from), last_activity: now, ..v.nodes[k] });
                (peer_addrs(nodes2, nodes2[k].peer_ids), RelayView { nodes: nodes2, ip_index: v.ip_index })
            }
        },
    }
}

/// The nodes heard from less than `node_timeout()` seconds before `now`.
pub open spec fn survivors(nodes: Seq<RelayNodeView>, now: u64) -> Seq<RelayNodeView>
    decreases nodes.len(),
{
    if nodes.len() == 0 {
        Seq::empty()
    } else {
        let r = survivors(nodes.drop_last(), now);
        let n = nodes.last();
        if crate::registry::elapsed(now, n.last_activity) < node_timeout() { r.push(n) } else { r }
    }
}

/// The index rebuilt from the nodes' last endpoints, later nodes winning.
pub open spec fn rebuilt_index(nodes: Seq<RelayNodeView>) -> Seq<(IpAddress, Seq<char>)>
    decreases nodes.len(),
{
    if nodes.len() == 0 {
        Seq::empty()
    } else {
        let r = rebuilt_index(nodes.drop_last());
        let n = nodes.last();
        match n.wg_addr {
            Some(a) => index_insert(r, a.ip, n.node_id),
            None => r,
        }
    }
}

/// The state after a reaping pass at `now`.
pub open spec fn reaped(v: RelayView, now: u64) -> RelayView {
    let kept = survivors(v.nodes, now);
    RelayView { nodes: kept, ip_index: rebuilt_index(kept) }
}

/// The text `REGISTER:`.
pub open spec fn register_prefix() -> Seq<char> {
    seq!['R', 'E', 'G', 'I', 'S', 'T', 'E', 'R', ':']
}

/// The message is a registration: it starts with `REGISTER:`.
pub open spec fn is_register(msg: Seq<char>) -> bool {
    msg.len() >= 9 && msg.take(9) == register_prefix()
}

/// The position of the first `:` in `s`, or -1.
pub open spec fn colon_pos(s: Seq<char>) -> int
    decreases s.len(),
{
    if s.len() == 0 {
        -1
    } else if s[0] == ':' {
        0
    } else {
        let r = colon_pos(s.drop_first());
        if r < 0 { -1 } else { r + 1 }
    }
}

proof fn lemma_colon_pos(s: Seq<char>)
    ensures
        -1 <= colon_pos(s) < s.len(),
        colon_pos(s) >= 0 ==> s[colon_pos(s)] == ':',
        forall|k: int| 0 <= k < s.len() && (colon_pos(s) < 0 || k < colon_pos(s)) ==> #[trigger] s[k] != ':',
    decreases s.len(),
{
    if s.len() > 0 && s[0] != ':' {
        lemma_colon_pos(s.drop_first());
        assert forall|k: int| 0 <= k < s.len() && (colon_pos(s) < 0 || k < colon_pos(s)) implies #[trigger] s[k] != ':' by {
            if k > 0 {
                assert(s[k] == s.drop_first()[k - 1]);
            }
        }
    }
}

/// The two ids of a registration `REGISTER:<my_id>:<peer_id>`, split at the
/// first `:` after the prefix; `None` where there is none.
pub open spec fn register_ids(msg: Seq<char>) -> Option<(Seq<char>, Seq<char>)> {
    let rest = msg.skip(9);
    let c = colon_pos(rest);
    if c >= 0 { Some((rest.take(c), rest.skip(c + 1))) } else { None }
}

/// Every id occurs once.
pub open spec fn distinct(s: Seq<Seq<char>>) -> bool {
    forall|i: int, j: int| 0 <= i < j < s.len() ==> s[i] != s[j]
}

/// The relay's consistency: one entry per node and per IP, each peer once.
pub open spec fn relay_wf(v: RelayView) -> bool {
    &&& forall|i: int, j: int| 0 <= i < j < v.nodes.len() ==> #[trigger] v.nodes[i].node_id != #[trigger] v.nodes[j].node_id
    &&& forall|i: int, j: int| 0 <= i < j < v.ip_index.len() ==> #[trigger] v.ip_index[i].0 != #[trigger] v.ip_index[j].0
    &&& forall|i: int| 0 <= i < v.nodes.len() ==> distinct(#[trigger] v.nodes[i].peer_ids)
}

/// The views of the index entries.
pub open spec fn index_view(v: Seq<(IpAddress, String)>) -> Seq<(IpAddress, Seq<char>)> {
    v.map_values(|e: (IpAddress, String)| (e.0, e.1@))
}

/// The views of the nodes.
pub open spec fn nodes_view(v: Seq<RelayNode>) -> Seq<RelayNodeView> {
    v.map_values(|n: RelayNode| n@)
}

impl View for Relay {
    type V = RelayView;

    closed spec fn view(&self) -> RelayView {
        RelayView { nodes: nodes_view(self.nodes@), ip_index: index_view(self.ip_index@) }
    }
}

fn copy_texts(v: &Vec<String>) -> (r: Vec<String>)
    ensures
        texts(r@) == texts(v@),
{
    let mut r: Vec<String> = Vec::new();
    let mut i: usize = 0;
    while i < v.len()
        invariant
            i <= v@.len(),
            texts(r@) == texts(v@).take(i as int),
        decreases v.len() - i,
    {
        let ghost prev = r@;
        r.push(v[i].clone());
        assert(texts(r@) =~= texts(prev).push(v@[i as int]@));
        assert(texts(v@).take(i as int + 1) =~= texts(v@).take(i as int).push(texts(v@)[i as int]));
        i = i + 1;
    }
    assert(texts(v@).take(i as int) =~= texts(v@));
    r
}

fn node_copy(n: &RelayNode) -> (r: RelayNode)
    ensures
        r@ == n@,
{
    RelayNode {
        node_id: n.node_id.clone(),
        peer_ids: copy_texts(&n.peer_ids),
        wg_addr: n.wg_addr,
        last_activity: n.last_activity,
    }
}

/// Whether `x` is among `v`.
fn has_text(v: &Vec<String>, x: &str) -> (r: bool)
    ensures
        r == texts(v@).contains(x@),
{
    let mut i: usize = 0;
    while i < v.len()
        invariant
            i <= v@.len(),
            forall|k: int| 0 <= k < i ==> #[trigger] texts(v@)[k] != x@,
        decreases v.len() - i,
    {
        assert(texts(v@)[i as int] == v@[i as int]@);
        if str_eq(v[i].as_str(), x) {
            assert(texts(v@)[i as int] == x@);
            return true;
        }
        i = i + 1;
    }
    false
}

proof fn lemma_survivors_wf(nodes: Seq<RelayNodeView>, now: u64)
    requires
        forall|i: int, j: int| 0 <= i < j < nodes.len() ==> #[trigger] nodes[i].node_id != #[trigger] nodes[j].node_id,
        forall|i: int| 0 <= i < nodes.len() ==> distinct(#[trigger] nodes[i].peer_ids),
    ensures
        forall|i: int, j: int| 0 <= i < j < survivors(nodes, now).len() ==>
            #[trigger] survivors(nodes, now)[i].node_id != #[trigger] survivors(nodes, now)[j].node_id,
        forall|i: int| 0 <= i < survivors(nodes, now).len() ==> distinct(#[trigger] survivors(nodes, now)[i].peer_ids),
        forall|x: int| 0 <= x < survivors(nodes, now).len() ==>
            exists|i: int| 0 <= i < nodes.len() && nodes[i] == #[trigger] survivors(nodes, now)[x],
    decreases nodes.len(),
{
    if nodes.len() > 0 {
        let p = nodes.drop_last();
        assert forall|i: int, j: int| 0 <= i < j < p.len() implies #[trigger] p[i].node_id != #[trigger] p[j].node_id by {
            assert(p[i] == nodes[i] && p[j] == nodes[j]);
        }
        assert forall|i: int| 0 <= i < p.len() implies distinct(#[trigger] p[i].peer_ids) by {
            assert(p[i] == nodes[i]);
        }
        lemma_survivors_wf(p, now);
        let r = survivors(p, now);
        let out = survivors(nodes, now);
        assert forall|x: int| 0 <= x < out.len() implies exists|i: int| 0 <= i < nodes.len() && nodes[i] == #[trigger] out[x] by {
            if x < r.len() {
                assert(out[x] == r[x]);
                let i = choose|i: int| 0 <= i < p.len() && p[i] == r[x];
                assert(nodes[i] == p[i]);
            } else {
                assert(out[x] == nodes[nodes.len() - 1]);
            }
        }
        assert forall|i: int, j: int| 0 <= i < j < out.len() implies #[trigger] out[i].node_id != #[trigger] out[j].node_id by {
            if j < r.len() {
                assert(out[i] == r[i] && out[j] == r[j]);
            } else {
                assert(out[i] == r[i]);
                let k = choose|k: int| 0 <= k < p.len() && p[k] == r[i];
                assert(nodes[k] == p[k]);
                assert(out[j] == nodes[nodes.len() - 1]);
            }
        }
        assert forall|i: int| 0 <= i < out.len() implies distinct(#[trigger] out[i].peer_ids) by {
            let k = choose|k: int| 0 <= k < nodes.len() && nodes[k] == out[i];
        }
    }
}

fn starts_with_register(chars: &Vec<char>) -> (r: bool)
    ensures
        r == is_register(chars@),
{
    if chars.len() < 9 {
        return false;
    }
    let r = chars[0] == 'R' && chars[1] == 'E' && chars[2] == 'G' && chars[3] == 'I' && chars[4] == 'S'
        && chars[5] == 'T' && chars[6] == 'E' && chars[7] == 'R' && chars[8] == ':';
    proof {
        if r {
            assert(chars@.take(9) =~= register_prefix());
        } else {
            if chars@.take(9) == register_prefix() {
                assert(chars@.take(9)[0] == 'R');
                assert(chars@.take(9)[1] == 'E');
                assert(chars@.take(9)[2] == 'G');
                assert(chars@.take(9)[3] == 'I');
                assert(chars@.take(9)[4] == 'S');
                assert(chars@.take(9)[5] == 'T');
                assert(chars@.take(9)[6] == 'E');
                assert(chars@.take(9)[7] == 'R');
                assert(chars@.take(9)[8] == ':');
            }
        }
    }
    r
}

fn chars_text(chars: &Vec<char>, lo: usize, hi: usize) -> (s: String)
    requires
        lo <= hi <= chars@.len(),
    ensures
        s@ == chars@.subrange(lo as int, hi as int),
{
    let mut s = String::new();
    let mut i = lo;
    while i < hi
        invariant
            lo <= i <= hi,
            hi <= chars@.len(),
            s@ == chars@.subrange(lo as int, i as int),
        decreases hi - i,
    {
        push_char(&mut s, chars[i]);
        i = i + 1;
        assert(s@ =~= chars@.subrange(lo as int, i as int));
    }
    s
}

impl Relay {
    /// The relay's consistency.
    pub closed spec fn wf(&self) -> bool {
        relay_wf(self@)
    }

    /// A relay that knows no node.
    pub fn new() -> (r: Relay)
        ensures
            r.wf(),
            r@.nodes == Seq::<RelayNodeView>::empty(),
            r@.ip_index == Seq::<(IpAddress, Seq<char>)>::empty(),
    {
        let r = Relay { nodes: Vec::new(), ip_index: Vec::new() };
        assert(r@.nodes =~= Seq::<RelayNodeView>::empty());
        assert(r@.ip_index =~= Seq::<(IpAddress, Seq<char>)>::empty());
        r
    }


    fn set_index(&mut self, ip: IpAddress, id: String)
        requires
            relay_wf(old(self)@),
        ensures
            relay_wf(final(self)@),
            final(self)@.ip_index == index_insert(old(self)@.ip_index, ip, id@),
            final(self)@.nodes == old(self)@.nodes,
    {
        let ghost before = self@.ip_index;
        proof {
            lemma_ip_pos(before, ip);
        }
        match self.find_ip(ip) {
            Some(k) => {
                self.ip_index.set(k, (ip, id));
                assert(self@.ip_index =~= before.update(k as int, (ip, self.ip_index@[k as int].1@)));
                assert forall|i: int, j: int| 0 <= i < j < self@.ip_index.len() implies #[trigger] self@.ip_index[i].0 != #[trigger] self@.ip_index[j].0 by {
                    assert(self@.ip_index[i].0 == before[i].0);
                    assert(self@.ip_index[j].0 == before[j].0);
                }
            },
            None => {
                self.ip_index.push((ip, id));
                assert(self@.ip_index =~= before.push((ip, self.ip_index@.last().1@)));
                assert forall|i: int, j: int| 0 <= i < j < self@.ip_index.len() implies #[trigger] self@.ip_index[i].0 != #[trigger] self@.ip_index[j].0 by {
                    if j == before.len() {
                        assert(before[i].0 != ip);
                    } else {
                        assert(self@.ip_index[i] == before[i]);
                        assert(self@.ip_index[j] == before[j]);
                    }
                }
            },
        }
        assert(self@.nodes =~= old(self)@.nodes);
    }

    /// Records that node `my_id`, sending from `from` at `now`, wants to
    /// reach `peer_id`; packets from `from`'s IP are attributed to it.
    pub fn handle_register(&mut self, from: SocketAddress, my_id: String, peer_id: String, now: u64)
        requires
            old(self).wf(),
        ensures
            final(self).wf(),
            final(self)@ == registered(old(self)@, from, my_id@, peer_id@, now),
    {
        let ghost v0 = self@;
        proof {
            lemma_find_first(v0.nodes, |n: RelayNodeView| n.node_id == my_id@);
        }
        match self.find_node(my_id.as_str()) {
            Some(k) => {
                let mut node = self.nodes.remove(k);
                assert(node@ == v0.nodes[k as int]);
                let ghost pids0 = texts(node.peer_ids@);
                if !has_text(&node.peer_ids, peer_id.as_str()) {
                    node.peer_ids.push(peer_id.clone());
                    assert(texts(node.peer_ids@) =~= pids0.push(peer_id@));
                }
                node.wg_addr = Some(from);
                node.last_activity = now;
                assert(node@ == RelayNodeView { node_id: my_id@, peer_ids: set_add(pids0, peer_id@), wg_addr: Some(from), last_activity: now });
                self.nodes.insert(k, node);
                proof {
                    assert(self@.nodes =~= v0.nodes.update(k as int, node@));
                    assert forall|i: int, j: int| 0 <= i < j < self@.nodes.len() implies #[trigger] self@.nodes[i].node_id != #[trigger] self@.nodes[j].node_id by {
                        assert(self@.nodes[i].node_id == v0.nodes[i].node_id);
                        assert(self@.nodes[j].node_id == v0.nodes[j].node_id);
                    }
                    assert forall|i: int| 0 <= i < self@.nodes.len() implies distinct(#[trigger] self@.nodes[i].peer_ids) by {
                        if i == k {
                            assert(relay_wf(v0));
                            assert(distinct(v0.nodes[k as int].peer_ids));
                            assert(distinct(pids0));
                            if !pids0.contains(peer_id@) {
                                assert forall|a: int, b: int| 0 <= a < b < pids0.len() + 1 implies pids0.push(peer_id@)[a] != pids0.push(peer_id@)[b] by {
                                    if b == pids0.len() {
                                        assert(pids0[a] == pids0.push(peer_id@)[a]);
                                    }
                                }
                            }
                        } else {
                            assert(self@.nodes[i] == v0.nodes[i]);
                        }
                    }
                }
            },
            None => {
                let mut pids: Vec<String> = Vec::new();
                pids.push(peer_id.clone());
                let node = RelayNode { node_id: my_id.clone(), peer_ids: pids, wg_addr: Some(from), last_activity: now };
                assert(texts(node.peer_ids@) =~= seq![peer_id@]);
                self.nodes.push(node);
                proof {
                    assert(self@.nodes =~= v0.nodes.push(node@));
                    assert forall|i: int, j: int| 0 <= i < j < self@.nodes.len() implies #[trigger] self@.nodes[i].node_id != #[trigger] self@.nodes[j].node_id by {
                        if j == v0.nodes.len() {
                            assert(self@.nodes[i] == v0.nodes[i]);
                            assert(!(|n: RelayNodeView| n.node_id == my_id@)(v0.nodes[i]));
                        } else {
                            assert(self@.nodes[i] == v0.nodes[i]);
                            assert(self@.nodes[j] == v0.nodes[j]);
                        }
                    }
                    assert forall|i: int| 0 <= i < self@.nodes.len() implies distinct(#[trigger] self@.nodes[i].peer_ids) by {
                        if i < v0.nodes.len() {
                            assert(self@.nodes[i] == v0.nodes[i]);
                        }
                    }
                }
            },
        }
        assert(self@.ip_index =~= v0.ip_index);
        self.set_index(from.ip, my_id);
    }


    /// Handles a data packet from `from` at `now` and returns where it goes:
    /// see [`forwarded`].
    pub fn forward(&mut self, from: SocketAddress, now: u64) -> (dests: Vec<SocketAddress>)
        requires
            old(self).wf(),
        ensures
            final(self).wf(),
            (dests@, final(self)@) == forwarded(old(self)@, from, now),
    {
        let ghost v0 = self@;
        proof {
            lemma_ip_pos(v0.ip_index, from.ip);
        }
        let id: String = match self.find_ip(from.ip) {
            None => {
                return Vec::new();
            },
            Some(p) => {
                assert(v0.ip_index[p as int] == (self.ip_index@[p as int].0, self.ip_index@[p as int].1@));
                self.ip_index[p].1.clone()
            },
        };
        assert(ip_owner(v0.ip_index, from.ip) == Some(id@));
        let k = match self.find_node(id.as_str()) {
            None => {
                return Vec::new();
            },
            Some(k) => k,
        };
        let mut node = self.nodes.remove(k);
        assert(node@ == v0.nodes[k as int]);
        node.wg_addr = Some(from);
        node.last_activity = now;
        self.nodes.insert(k, node);
        let ghost nodes2 = v0.nodes.update(k as int, RelayNodeView { wg_addr: Some(from), last_activity: now, ..v0.nodes[k as int] });
        proof {
            assert(self@.nodes =~= nodes2);
            assert(self@.ip_index =~= v0.ip_index);
            assert forall|i: int, j: int| 0 <= i < j < self@.nodes.len() implies #[trigger] self@.nodes[i].node_id != #[trigger] self@.nodes[j].node_id by {
                assert(self@.nodes[i].node_id == v0.nodes[i].node_id);
                assert(self@.nodes[j].node_id == v0.nodes[j].node_id);
            }
            assert forall|i: int| 0 <= i < self@.nodes.len() implies distinct(#[trigger] self@.nodes[i].peer_ids) by {
                assert(self@.nodes[i].peer_ids == v0.nodes[i].peer_ids);
            }
        }
        let ghost pids = nodes2[k as int].peer_ids;
        let mut out: Vec<SocketAddress> = Vec::new();
        let n = self.nodes[k].peer_ids.len();
        let mut j: usize = 0;
        while j < n
            invariant
                j <= n,
                k < self.nodes@.len(),
                self@.nodes == nodes2,
                n == self.nodes@[k as int].peer_ids@.len(),
                pids == texts(self.nodes@[k as int].peer_ids@),
                out@ == peer_addrs(nodes2, pids.take(j as int)),
            decreases n - j,
        {
            let pid = &self.nodes[k].peer_ids[j];
            proof {
                assert(pids[j as int] == pid@);
                assert(pids.take(j as int + 1).drop_last() =~= pids.take(j as int));
                assert(pids.take(j as int + 1).last() == pid@);
            }
            match self.find_node(pid.as_str()) {
                Some(q) => {
                    assert(self@.nodes[q as int] == self.nodes@[q as int]@);
                    match self.nodes[q].wg_addr {
                        Some(a) => {
                            out.push(a);
                        },
                        None => {},
                    }
                },
                None => {},
            }
            j = j + 1;
        }
        assert(pids.take(j as int) =~= pids);
        out
    }

    /// Forgets the nodes silent for `node_timeout()` seconds or more as of
    /// `now`, and rebuilds the IP attribution from the rest.
    pub fn reap(&mut self, now: u64)
        requires
            old(self).wf(),
        ensures
            final(self).wf(),
            final(self)@ == reaped(old(self)@, now),
    {
        let ghost v0 = self@;
        let mut kept: Vec<RelayNode> = Vec::new();
        let mut i: usize = 0;
        while i < self.nodes.len()
            invariant
                i <= self.nodes@.len(),
                self@ == v0,
                nodes_view(kept@) == survivors(v0.nodes.take(i as int), now),
            decreases self.nodes.len() - i,
        {
            let n = &self.nodes[i];
            proof {
                assert(v0.nodes[i as int] == self.nodes@[i as int]@);
                assert(v0.nodes.take(i as int + 1).drop_last() =~= v0.nodes.take(i as int));
                assert(v0.nodes.take(i as int + 1).last() == v0.nodes[i as int]);
            }
            let age: u64 = if now >= n.last_activity { now - n.last_activity } else { 0 };
            if age < 30 {
                let ghost prev = kept@;
                kept.push(node_copy(n));
                assert(nodes_view(kept@) =~= nodes_view(prev).push(v0.nodes[i as int]));
            }
            i = i + 1;
        }
        assert(v0.nodes.take(i as int) =~= v0.nodes);
        proof {
            lemma_survivors_wf(v0.nodes, now);
        }
        self.nodes = kept;
        self.ip_index = Vec::new();
        assert(self@.ip_index =~= rebuilt_index(self@.nodes.take(0)));
        let mut m: usize = 0;
        while m < self.nodes.len()
            invariant
                m <= self.nodes@.len(),
                self@.nodes == survivors(v0.nodes, now),
                relay_wf(self@),
                self@.ip_index == rebuilt_index(self@.nodes.take(m as int)),
            decreases self.nodes.len() - m,
        {
            proof {
                assert(self@.nodes[m as int] == self.nodes@[m as int]@);
                assert(self@.nodes.take(m as int + 1).drop_last() =~= self@.nodes.take(m as int));
                assert(self@.nodes.take(m as int + 1).last() == self@.nodes[m as int]);
            }
            match self.nodes[m].wg_addr {
                Some(a) => {
                    let id = self.nodes[m].node_id.clone();
                    self.set_index(a.ip, id);
                },
                None => {},
            }
            m = m + 1;
        }
        assert(self@.nodes.take(m as int) =~= self@.nodes);
    }

    /// Decides what to do with a datagram from `from` received at `now`:
    /// a registration (text starting `REGISTER:`) is recorded when it holds
    /// both ids and is always acknowledged; anything else is relayed.
    pub fn on_datagram(&mut self, data: &[u8], from: SocketAddress, now: u64) -> (action: RelayAction)
        requires
            old(self).wf(),
        ensures
            final(self).wf(),
            is_register(utf8_lossy(data@)) ==> {
                &&& action is Acknowledge
                &&& final(self)@ == match register_ids(utf8_lossy(data@)) {
                    Some((my, peer)) => registered(old(self)@, from, my, peer, now),
                    None => old(self)@,
                }
            },
            !is_register(utf8_lossy(data@)) ==> {
                &&& action matches RelayAction::Forward(dests)
                &&& (dests@, final(self)@) == forwarded(old(self)@, from, now)
            },
    {
        let msg = decode_lossy(data);
        let chars = text_chars(msg.as_str());
        let ghost m = utf8_lossy(data@);
        assert(chars@ == m);
        if starts_with_register(&chars) {
            let ghost rest = m.skip(9);
            proof {
                lemma_colon_pos(rest);
            }
            let mut c: usize = 9;
            while c < chars.len() && chars[c] != ':'
                invariant
                    9 <= c <= chars@.len(),
                    chars@ == m,
                    rest == m.skip(9),
                    forall|k: int| 0 <= k < c - 9 ==> #[trigger] rest[k] != ':',
                decreases chars.len() - c,
            {
                assert(rest[c - 9] == chars@[c as int]);
                c = c + 1;
            }
            if c < chars.len() {
                proof {
                    assert(rest[c - 9] == chars@[c as int]);
                    assert(rest[c - 9] == ':');
                    let cp = colon_pos(rest);
                    if cp >= 0 && cp < c - 9 {
                        assert(rest[cp] == ':');
                    }
                    assert(colon_pos(rest) == c - 9);
                }
                let my_id = chars_text(&chars, 9, c);
                let peer_id = chars_text(&chars, c + 1, chars.len());
                assert(my_id@ =~= rest.take(c - 9));
                assert(peer_id@ =~= rest.skip(c - 9 + 1));
                self.handle_register(from, my_id, peer_id, now);
            } else {
                proof {
                    let cp = colon_pos(rest);
                    if cp >= 0 {
                        assert(rest[cp] == ':');
                    }
                }
            }
            RelayAction::Acknowledge
        } else {
            RelayAction::Forward(self.forward(from, now))
        }
    }

    fn find_node(&self, id: &str) -> (r: Option<usize>)
        ensures
            r is Some <==> node_pos(self@.nodes, id@) >= 0,
            r matches Some(i) ==> i as int == node_pos(self@.nodes, id@) && i < self.nodes@.len(),
    {
        let ghost p = |n: RelayNodeView| n.node_id == id@;
        proof {
            lemma_find_first(self@.nodes, p);
        }
        let mut i: usize = 0;
        while i < self.nodes.len()
            invariant
                i <= self.nodes@.len(),
                self@.nodes.len() == self.nodes@.len(),
                p == (|n: RelayNodeView| n.node_id == id@),
                -1 <= find_first(self@.nodes, p) < self@.nodes.len(),
                find_first(self@.nodes, p) >= 0 ==> p(self@.nodes[find_first(self@.nodes, p)]),
                forall|k: int| 0 <= k < self@.nodes.len() && (find_first(self@.nodes, p) < 0 || k < find_first(self@.nodes, p)) ==> !p(#[trigger] self@.nodes[k]),
                forall|k: int| 0 <= k < i ==> #[trigger] self@.nodes[k].node_id != id@,
            decreases self.nodes.len() - i,
        {
            assert(self@.nodes[i as int] == self.nodes@[i as int]@);
            if str_eq(self.nodes[i].node_id.as_str(), id) {
                proof {
                    let ff = find_first(self@.nodes, p);
                    assert(p(self@.nodes[i as int]));
                    if ff >= 0 && ff < i {
                        assert(p(self@.nodes[ff]));
                        assert(self@.nodes[ff].node_id == id@);
                    }
                }
                return Some(i);
            }
            assert(!p(self@.nodes[i as int]));
            i = i + 1;
        }
        proof {
            let ff = find_first(self@.nodes, p);
            if ff >= 0 {
                assert(p(self@.nodes[ff]));
                assert(self@.nodes[ff].node_id == id@);
            }
        }
        None
    }

    fn find_ip(&self, ip: IpAddress) -> (r: Option<usize>)
        ensures
            r is Some <==> ip_pos(self@.ip_index, ip) >= 0,
            r matches Some(i) ==> i as int == ip_pos(self@.ip_index, ip) && i < self.ip_index@.len(),
    {
        proof {
            lemma_ip_pos(self@.ip_index, ip);
        }
        let mut i: usize = 0;
        while i < self.ip_index.len()
            invariant
                i <= self.ip_index@.len(),
                self@.ip_index.len() == self.ip_index@.len(),
                -1 <= ip_pos(self@.ip_index, ip) < self@.ip_index.len(),
                ip_pos(self@.ip_index, ip) >= 0 ==> self@.ip_index[ip_pos(self@.ip_index, ip)].0 == ip,
                forall|k: int| 0 <= k < self@.ip_index.len() && (ip_pos(self@.ip_index, ip) < 0 || k < ip_pos(self@.ip_index, ip)) ==> #[trigger] self@.ip_index[k].0 != ip,
                forall|k: int| 0 <= k < i ==> #[trigger] self@.ip_index[k].0 != ip,
            decreases self.ip_index.len() - i,
        {
            assert(self@.ip_index[i as int] == (self.ip_index@[i as int].0, self.ip_index@[i as int].1@));
            let same = self.ip_index[i].0 == ip;
            if same {
                proof {
                    let ff = ip_pos(self@.ip_index, ip);
                    assert(self@.ip_index[i as int].0 == ip);
                    if ff >= 0 && ff < i {
                        assert(self@.ip_index[ff].0 == ip);
                    }
                }
                return Some(i);
            }
            i = i + 1;
        }
        proof {
            let ff = ip_pos(self@.ip_index, ip);
            if ff >= 0 {
                assert(self@.ip_index[ff].0 == ip);
            }
        }
        None
    }
}


/// `find_first` is the first position satisfying `p`.
pub proof fn lemma_find_first_at<A>(s: Seq<A>, p: spec_fn(A) -> bool, i: int)
    requires
        0 <= i < s.len(),
        p(s[i]),
        forall|k: int| 0 <= k < i ==> !p(#[trigger] s[k]),
    ensures
        find_first(s, p) == i,
{
    lemma_find_first(s, p);
    let f = find_first(s, p);
    if f < 0 || f > i {
        assert(!p(s[i]));
    } else if f < i {
        assert(!p(s[f]));
    }
}

/// `ip_pos` is the first position holding `ip`.
proof fn lemma_ip_pos_at(index: Seq<(IpAddress, Seq<char>)>, ip: IpAddress, i: int)
    requires
        0 <= i < index.len(),
        index[i].0 == ip,
        forall|k: int| 0 <= k < i ==> #[trigger] index[k].0 != ip,
    ensures
        ip_pos(index, ip) == i,
{
    lemma_ip_pos(index, ip);
    let f = ip_pos(index, ip);
    if f < 0 || f > i {
        assert(index[i].0 != ip);
    } else if f < i {
        assert(index[f].0 != ip);
    }
}

/// After `index_insert`, `ip` belongs to `id` and every other IP to whom it
/// belonged before.
proof fn lemma_index_insert(index: Seq<(IpAddress, Seq<char>)>, ip: IpAddress, id: Seq<char>)
    ensures
        ip_owner(index_insert(index, ip, id), ip) == Some(id),
        forall|other: IpAddress| other != ip ==>
            #[trigger] ip_owner(index_insert(index, ip, id), other) == ip_owner(index, other),
{
    lemma_ip_pos(index, ip);
    let k = ip_pos(index, ip);
    let t = index_insert(index, ip, id);
    if k >= 0 {
        assert forall|m: int| 0 <= m < k implies #[trigger] t[m].0 != ip by {
            assert(t[m] == index[m]);
        }
        lemma_ip_pos_at(t, ip, k);
    } else {
        assert forall|m: int| 0 <= m < index.len() implies #[trigger] t[m].0 != ip by {
            assert(t[m] == index[m]);
        }
        lemma_ip_pos_at(t, ip, index.len() as int);
    }
    assert forall|other: IpAddress| other != ip implies
        #[trigger] ip_owner(t, other) == ip_owner(index, other) by {
        lemma_ip_pos(index, other);
        let j = ip_pos(index, other);
        if j >= 0 {
            assert forall|m: int| 0 <= m < j implies #[trigger] t[m].0 != other by {
                if m != k {
                    assert(t[m] == index[m]);
                }
            }
            assert(t[j] == index[j]);
            lemma_ip_pos_at(t, other, j);
        } else {
            lemma_ip_pos(t, other);
            let f = ip_pos(t, other);
            if f >= 0 {
                if f < index.len() && f != k {
                    assert(t[f] == index[f]);
                }
            }
        }
    }
}

/// Where node `my` stands after registering, and that the other nodes are
/// as before.
proof fn lemma_registered_nodes(v: RelayView, from: SocketAddress, my: Seq<char>, peer: Seq<char>, now: u64)
    ensures
        node_pos(registered(v, from, my, peer, now).nodes, my) >= 0,
        registered(v, from, my, peer, now).nodes[node_pos(registered(v, from, my, peer, now).nodes, my)].peer_ids.contains(peer),
        registered(v, from, my, peer, now).nodes[node_pos(registered(v, from, my, peer, now).nodes, my)].wg_addr == Some(from),
{
    let pm = |n: RelayNodeView| n.node_id == my;
    lemma_find_first(v.nodes, pm);
    let k = node_pos(v.nodes, my);
    let t = registered(v, from, my, peer, now).nodes;
    if k >= 0 {
        assert forall|m: int| 0 <= m < k implies !pm(#[trigger] t[m]) by {
            assert(t[m] == v.nodes[m]);
            assert(!pm(v.nodes[m]));
        }
        lemma_find_first_at(t, pm, k);
        let pids = v.nodes[k].peer_ids;
        if !pids.contains(peer) {
            assert(pids.push(peer)[pids.len() as int] == peer);
        }
    } else {
        assert forall|m: int| 0 <= m < v.nodes.len() implies !pm(#[trigger] t[m]) by {
            assert(t[m] == v.nodes[m]);
        }
        lemma_find_first_at(t, pm, v.nodes.len() as int);
        assert(t[v.nodes.len() as int].peer_ids == seq![peer]);
        assert(seq![peer][0] == peer);
    }

}

/// Registering node `my` leaves the other nodes in their places.
proof fn lemma_registered_other(v: RelayView, from: SocketAddress, my: Seq<char>, peer: Seq<char>, now: u64, other: Seq<char>)
    requires
        other != my,
    ensures
        node_pos(registered(v, from, my, peer, now).nodes, other) == node_pos(v.nodes, other),
        node_pos(v.nodes, other) >= 0 ==> registered(v, from, my, peer, now).nodes[node_pos(v.nodes, other)] == v.nodes[node_pos(v.nodes, other)],
{
    let pm = |n: RelayNodeView| n.node_id == my;
    lemma_find_first(v.nodes, pm);
    let k = node_pos(v.nodes, my);
    let t = registered(v, from, my, peer, now).nodes;
    let po = |n: RelayNodeView| n.node_id == other;
    lemma_find_first(v.nodes, po);
    let j = node_pos(v.nodes, other);
    if j >= 0 {
        assert(po(v.nodes[j]));
        assert(j != k);
        assert(t[j] == v.nodes[j]);
        assert forall|m: int| 0 <= m < j implies !po(#[trigger] t[m]) by {
            if m != k {
                assert(t[m] == v.nodes[m]);
            }
            assert(!po(v.nodes[m]));
        }
        lemma_find_first_at(t, po, j);
    } else {
        lemma_find_first(t, po);
        let f = find_first(t, po);
        if f >= 0 {
            assert(po(t[f]));
            if f < v.nodes.len() && f != k {
                assert(t[f] == v.nodes[f]);
                assert(!po(v.nodes[f]));
            }
        }
    }
}

/// The known endpoint of a listed peer is among the destinations.
proof fn lemma_peer_addrs_contains(nodes: Seq<RelayNodeView>, pids: Seq<Seq<char>>, peer: Seq<char>)
    requires
        pids.contains(peer),
        node_pos(nodes, peer) >= 0,
        nodes[node_pos(nodes, peer)].wg_addr is Some,
    ensures
        peer_addrs(nodes, pids).contains(nodes[node_pos(nodes, peer)].wg_addr->0),
    decreases pids.len(),
{
    let r = peer_addrs(nodes, pids.drop_last());
    let a = nodes[node_pos(nodes, peer)].wg_addr->0;
    if pids.last() == peer {
        assert(peer_addrs(nodes, pids) == r.push(a));
        assert(peer_addrs(nodes, pids)[r.len() as int] == a);
    } else {
        let i = choose|i: int| 0 <= i < pids.len() && pids[i] == peer;
        assert(pids.drop_last()[i] == peer);
        lemma_peer_addrs_contains(nodes, pids.drop_last(), peer);
        let m = choose|m: int| 0 <= m < r.len() && r[m] == a;
        assert(peer_addrs(nodes, pids)[m] == a);
    }
}

/// Fan-out: a packet from a node's IP goes to the known endpoint of every
/// other node it registered to reach.
pub proof fn lemma_forward_reaches_peers(v: RelayView, from: SocketAddress, now: u64, sender: Seq<char>, peer: Seq<char>)
    requires
        ip_owner(v.ip_index, from.ip) == Some(sender),
        node_pos(v.nodes, sender) >= 0,
        v.nodes[node_pos(v.nodes, sender)].peer_ids.contains(peer),
        peer != sender,
        node_pos(v.nodes, peer) >= 0,
        v.nodes[node_pos(v.nodes, peer)].wg_addr is Some,
    ensures
        forwarded(v, from, now).0.contains(v.nodes[node_pos(v.nodes, peer)].wg_addr->0),
        node_pos(forwarded(v, from, now).1.nodes, sender) == node_pos(v.nodes, sender),
        forwarded(v, from, now).1.nodes[node_pos(v.nodes, sender)].wg_addr == Some(from),
{
    let k = node_pos(v.nodes, sender);
    let j = node_pos(v.nodes, peer);
    let ps = |n: RelayNodeView| n.node_id == sender;
    let pp = |n: RelayNodeView| n.node_id == peer;
    lemma_find_first(v.nodes, ps);
    lemma_find_first(v.nodes, pp);
    let nodes2 = v.nodes.update(k, RelayNodeView { wg_addr: Some(from), last_activity: now, ..v.nodes[k] });
    assert(ps(v.nodes[k]));
    assert(pp(v.nodes[j]));
    assert(j != k);
    assert forall|m: int| 0 <= m < j implies !pp(#[trigger] nodes2[m]) by {
        if m != k {
            assert(nodes2[m] == v.nodes[m]);
        }
        assert(!pp(v.nodes[m]));
    }
    lemma_find_first_at(nodes2, pp, j);
    assert forall|m: int| 0 <= m < k implies !ps(#[trigger] nodes2[m]) by {
        assert(nodes2[m] == v.nodes[m]);
    }
    lemma_find_first_at(nodes2, ps, k);
    assert(nodes2[j] == v.nodes[j]);
    lemma_peer_addrs_contains(nodes2, nodes2[k].peer_ids, peer);
}

/// Two nodes on different IPs that register with each other reach each
/// other through the relay: a packet from the first node's IP, from any
/// port, goes to the second node's endpoint, and the first node's endpoint
/// becomes that packet's source (port roaming), so the second node's next
/// packet goes there.
pub proof fn lemma_paired_nodes_reach_each_other(
    v: RelayView,
    a: Seq<char>,
    b: Seq<char>,
    a_reg: SocketAddress,
    b_reg: SocketAddress,
    a_data: SocketAddress,
    b_data: SocketAddress,
    t1: u64,
    t2: u64,
    t3: u64,
    t4: u64,
)
    requires
        a != b,
        a_reg.ip != b_reg.ip,
        a_data.ip == a_reg.ip,
        b_data.ip == b_reg.ip,
    ensures
        ({
            let v2 = registered(registered(v, a_reg, a, b, t1), b_reg, b, a, t2);
            let (to_b, v3) = forwarded(v2, a_data, t3);
            let (to_a, v4) = forwarded(v3, b_data, t4);
            &&& to_b.contains(b_reg)
            &&& to_a.contains(a_data)
        }),
{
    let v1 = registered(v, a_reg, a, b, t1);
    let v2 = registered(v1, b_reg, b, a, t2);
    lemma_registered_nodes(v, a_reg, a, b, t1);
    lemma_registered_nodes(v1, b_reg, b, a, t2);
    lemma_registered_other(v1, b_reg, b, a, t2, a);
    lemma_index_insert(v.ip_index, a_reg.ip, a);
    lemma_index_insert(v1.ip_index, b_reg.ip, b);
    let ka = node_pos(v1.nodes, a);
    assert(node_pos(v2.nodes, a) == ka);
    assert(v2.nodes[ka] == v1.nodes[ka]);
    assert(ip_owner(v2.ip_index, a_data.ip) == Some(a));
    assert(ip_owner(v2.ip_index, b_data.ip) == Some(b));
    lemma_forward_reaches_peers(v2, a_data, t3, a, b);
    let v3 = forwarded(v2, a_data, t3).1;
    let kb = node_pos(v2.nodes, b);
    let pa = |n: RelayNodeView| n.node_id == a;
    let pb = |n: RelayNodeView| n.node_id == b;
    lemma_find_first(v2.nodes, pa);
    lemma_find_first(v2.nodes, pb);
    assert(pb(v2.nodes[kb]));
    assert(pa(v2.nodes[ka]));
    assert(v3.nodes == v2.nodes.update(ka, RelayNodeView { wg_addr: Some(a_data), last_activity: t3, ..v2.nodes[ka] }));
    assert(kb != ka);
    assert forall|m: int| 0 <= m < kb implies !pb(#[trigger] v3.nodes[m]) by {
        if m != ka {
            assert(v3.nodes[m] == v2.nodes[m]);
        }
        assert(!pb(v2.nodes[m]));
    }
    lemma_find_first_at(v3.nodes, pb, kb);
    assert(v3.nodes[kb] == v2.nodes[kb]);
    assert(v3.ip_index == v2.ip_index);
    lemma_forward_reaches_peers(v3, b_data, t4, b, a);
}


/// A data packet refreshes its sender: the node its source IP belongs to is
/// heard from at `now` and reached at the packet's source from then on,
/// with its peers kept; the other nodes and the IP attribution are as
/// before.
pub proof fn lemma_forward_refreshes_sender(v: RelayView, from: SocketAddress, now: u64, sender: Seq<char>)
    requires
        ip_owner(v.ip_index, from.ip) == Some(sender),
        node_pos(v.nodes, sender) >= 0,
    ensures
        forwarded(v, from, now).1.nodes.len() == v.nodes.len(),
        forwarded(v, from, now).1.ip_index == v.ip_index,
        forwarded(v, from, now).1.nodes[node_pos(v.nodes, sender)].last_activity == now,
        forwarded(v, from, now).1.nodes[node_pos(v.nodes, sender)].wg_addr == Some(from),
        forwarded(v, from, now).1.nodes[node_pos(v.nodes, sender)].node_id == sender,
        forwarded(v, from, now).1.nodes[node_pos(v.nodes, sender)].peer_ids == v.nodes[node_pos(v.nodes, sender)].peer_ids,
        forall|j: int| 0 <= j < v.nodes.len() && j != node_pos(v.nodes, sender) ==>
            #[trigger] forwarded(v, from, now).1.nodes[j] == v.nodes[j],
{
    let ps = |n: RelayNodeView| n.node_id == sender;
    lemma_find_first(v.nodes, ps);
    assert(ps(v.nodes[node_pos(v.nodes, sender)]));
}

/// Reaping at `now` keeps exactly the nodes heard from less than thirty
/// seconds before `now` (or later), in their order.
pub proof fn lemma_reap_keeps_recent(nodes: Seq<RelayNodeView>, now: u64)
    ensures
        forall|i: int| 0 <= i < nodes.len() && now - nodes[i].last_activity < 30 ==>
            survivors(nodes, now).contains(#[trigger] nodes[i]),
        forall|x: RelayNodeView| #[trigger] survivors(nodes, now).contains(x) ==>
            nodes.contains(x) && now - x.last_activity < 30,
    decreases nodes.len(),
{
    if nodes.len() > 0 {
        let p = nodes.drop_last();
        lemma_reap_keeps_recent(p, now);
        let r = survivors(p, now);
        let n = nodes.last();
        let out = survivors(nodes, now);
        assert forall|i: int| 0 <= i < nodes.len() && now - nodes[i].last_activity < 30 implies
            out.contains(#[trigger] nodes[i]) by {
            if i < p.len() {
                assert(p[i] == nodes[i]);
                assert(r.contains(p[i]));
                let m = choose|m: int| 0 <= m < r.len() && r[m] == p[i];
                assert(out[m] == r[m]);
            } else {
                assert(out == r.push(n));
                assert(out[r.len() as int] == n);
            }
        }
        assert forall|x: RelayNodeView| #[trigger] out.contains(x) implies nodes.contains(x) && now - x.last_activity < 30 by {
            let m = choose|m: int| 0 <= m < out.len() && out[m] == x;
            if m < r.len() {
                assert(out[m] == r[m]);
                assert(r.contains(x));
                let j = choose|j: int| 0 <= j < p.len() && p[j] == x;
                assert(nodes[j] == p[j]);
            } else {
                assert(x == n);
                assert(nodes[nodes.len() - 1] == n);
            }
        }
    }
}

/// After a reaping pass, the IP of a surviving node's endpoint is
/// attributed to that node when no other surviving node's endpoint has the
/// same IP.
pub proof fn lemma_reap_keeps_attribution(nodes: Seq<RelayNodeView>, i: int, a: SocketAddress)
    requires
        0 <= i < nodes.len(),
        nodes[i].wg_addr == Some(a),
        forall|j: int| 0 <= j < nodes.len() && j != i ==>
            !(#[trigger] nodes[j].wg_addr matches Some(b) && b.ip == a.ip),
    ensures
        ip_owner(rebuilt_index(nodes), a.ip) == Some(nodes[i].node_id),
    decreases nodes.len(),
{
    let p = nodes.drop_last();
    let n = nodes.last();
    let r = rebuilt_index(p);
    if i == nodes.len() - 1 {
        lemma_index_insert(r, a.ip, n.node_id);
    } else {
        assert forall|j: int| 0 <= j < p.len() && j != i implies
            !(#[trigger] p[j].wg_addr matches Some(b) && b.ip == a.ip) by {
            assert(p[j] == nodes[j]);
        }
        assert(p[i] == nodes[i]);
        lemma_reap_keeps_attribution(p, i, a);
        let last = nodes.len() - 1;
        assert(!(nodes[last].wg_addr matches Some(b) && b.ip == a.ip));
        match n.wg_addr {
            Some(b) => {
                lemma_index_insert(r, b.ip, n.node_id);
            },
            None => {},
        }
    }
}

/// A node that keeps sending survives reaping: after a data packet from its
/// IP at `sent`, a reaping pass at a time less than thirty seconds later
/// keeps the node, with the packet's source as its endpoint.
pub proof fn lemma_active_node_survives_reap(v: RelayView, from: SocketAddress, sent: u64, sender: Seq<char>, now: u64)
    requires
        ip_owner(v.ip_index, from.ip) == Some(sender),
        node_pos(v.nodes, sender) >= 0,
        now - sent < 30,
    ensures
        exists|x: RelayNodeView| #[trigger] reaped(forwarded(v, from, sent).1, now).nodes.contains(x)
            && x.node_id == sender && x.wg_addr == Some(from) && x.last_activity == sent,
{
    lemma_forward_refreshes_sender(v, from, sent, sender);
    let after = forwarded(v, from, sent).1;
    let k = node_pos(v.nodes, sender);
    let ps = |n: RelayNodeView| n.node_id == sender;
    lemma_find_first(v.nodes, ps);
    assert(0 <= k < after.nodes.len());
    lemma_reap_keeps_recent(after.nodes, now);
    assert(now - after.nodes[k].last_activity < 30);
    assert(survivors(after.nodes, now).contains(after.nodes[k]));
    assert(reaped(after, now).nodes.contains(after.nodes[k]));
}


/// Two nodes on different IPs that registered with each other and keep
/// exchanging packets stay connected through reaping: after each sends a
/// packet, a reaping pass less than thirty seconds after both packets keeps
/// them, and the first node's next packet, from any port of its IP, still
/// reaches the second node where it last sent from.
pub proof fn lemma_active_pair_survives_reap(
    a: Seq<char>,
    b: Seq<char>,
    a_reg: SocketAddress,
    b_reg: SocketAddress,
    a_data: SocketAddress,
    b_data: SocketAddress,
    a_next: SocketAddress,
    t_reg: u64,
    t_a: u64,
    t_b: u64,
    t_reap: u64,
    t_next: u64,
)
    requires
        a != b,
        a_reg.ip != b_reg.ip,
        a_data.ip == a_reg.ip,
        a_next.ip == a_reg.ip,
        b_data.ip == b_reg.ip,
        t_reap - t_a < 30,
        t_reap - t_b < 30,
    ensures
        ({
            let empty = RelayView { nodes: Seq::empty(), ip_index: Seq::empty() };
            let v2 = registered(registered(empty, a_reg, a, b, t_reg), b_reg, b, a, t_reg);
            let v3 = forwarded(v2, a_data, t_a).1;
            let v4 = forwarded(v3, b_data, t_b).1;
            let v5 = reaped(v4, t_reap);
            forwarded(v5, a_next, t_next).0.contains(b_data)
        }),
{
    let empty = RelayView { nodes: Seq::empty(), ip_index: Seq::empty() };
    let v1 = registered(empty, a_reg, a, b, t_reg);
    let v2 = registered(v1, b_reg, b, a, t_reg);
    lemma_registered_nodes(empty, a_reg, a, b, t_reg);
    lemma_registered_nodes(v1, b_reg, b, a, t_reg);
    lemma_registered_other(v1, b_reg, b, a, t_reg, a);
    lemma_index_insert(empty.ip_index, a_reg.ip, a);
    lemma_index_insert(v1.ip_index, b_reg.ip, b);
    let pa = |n: RelayNodeView| n.node_id == a;
    let pb = |n: RelayNodeView| n.node_id == b;
    lemma_find_first(v1.nodes, pb);
    lemma_find_first(empty.nodes, pa);
    assert(v1.nodes.len() == 1);
    assert(v2.nodes.len() == 2);
    let ka = node_pos(v2.nodes, a);
    let kb = node_pos(v2.nodes, b);
    lemma_find_first(v2.nodes, pa);
    lemma_find_first(v2.nodes, pb);
    assert(ka == 0 && kb == 1);
    assert(v2.nodes[0].peer_ids.contains(b));
    assert(v2.nodes[1].peer_ids.contains(a));
    assert(ip_owner(v2.ip_index, a_data.ip) == Some(a));
    assert(ip_owner(v2.ip_index, b_data.ip) == Some(b));
    // A sends.
    lemma_forward_refreshes_sender(v2, a_data, t_a, a);
    let v3 = forwarded(v2, a_data, t_a).1;
    lemma_find_first(v3.nodes, pb);
    assert(v3.nodes[1] == v2.nodes[1]);
    assert(v3.nodes[0].node_id == a);
    assert(!pb(v3.nodes[0]));
    lemma_find_first_at(v3.nodes, pb, 1);
    // B sends.
    lemma_forward_refreshes_sender(v3, b_data, t_b, b);
    let v4 = forwarded(v3, b_data, t_b).1;
    assert(v4.nodes.len() == 2);
    assert(v4.nodes[0] == v3.nodes[0]);
    assert(v4.nodes[0].wg_addr == Some(a_data) && v4.nodes[0].last_activity == t_a && v4.nodes[0].node_id == a);
    assert(v4.nodes[1].wg_addr == Some(b_data) && v4.nodes[1].last_activity == t_b && v4.nodes[1].node_id == b);
    assert(v4.nodes[0].peer_ids.contains(b));
    // The reap keeps both, in order.
    let kept = survivors(v4.nodes, t_reap);
    assert(v4.nodes.drop_last() =~= seq![v4.nodes[0]]);
    assert(seq![v4.nodes[0]].drop_last() =~= Seq::<RelayNodeView>::empty());
    assert(survivors(Seq::<RelayNodeView>::empty(), t_reap) == Seq::<RelayNodeView>::empty());
    assert(seq![v4.nodes[0]].last() == v4.nodes[0]);
    assert(crate::registry::elapsed(t_reap, v4.nodes[0].last_activity) < node_timeout());
    assert(survivors(seq![v4.nodes[0]], t_reap) =~= Seq::<RelayNodeView>::empty().push(v4.nodes[0]));
    assert(survivors(seq![v4.nodes[0]], t_reap) =~= seq![v4.nodes[0]]);
    assert(kept =~= seq![v4.nodes[0], v4.nodes[1]]);
    let v5 = reaped(v4, t_reap);
    // Each node's IP is attributed to it again.
    assert forall|j: int| 0 <= j < kept.len() && j != 0 implies
        !(#[trigger] kept[j].wg_addr matches Some(c) && c.ip == a_data.ip) by {
        assert(kept[j] == v4.nodes[1]);
    }
    lemma_reap_keeps_attribution(kept, 0, a_data);
    assert(ip_owner(v5.ip_index, a_next.ip) == Some(a));
    lemma_find_first_at(v5.nodes, pa, 0);
    assert(!pa(v5.nodes[1]));
    lemma_find_first_at(v5.nodes, pb, 1);
    lemma_forward_reaches_peers(v5, a_next, t_next, a, b);
}

} // verus!
