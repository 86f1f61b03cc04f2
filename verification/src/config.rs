//! The node's persistent configuration and where it is kept.

use vstd::prelude::*;
use crate::text::text_chars;

verus! {

/// The network all nodes get an address from.
pub const NETWORK_CIDR: &'static str = "10.13.0.0/16";

/// The control server's default bind address.
pub const CCS_DEFAULT_ADDR: &'static str = "0.0.0.0:9090";

/// A node's configuration as stored on disk.
#[derive(Debug, Clone)]
pub struct NodeConfig {
    /// Unique node id, assigned at registration.
    pub node_id: String,
    /// Human-readable name.
    pub name: String,
    /// The node's WireGuard private key, base64.
    pub private_key: String,
    /// The node's assigned VPN address.
    pub vpn_ip: String,
    /// The control server's address.
    pub ccs_addr: String,
    /// Session token for authenticated requests.
    pub session_token: String,
}

/// `base` extended by the path `comp`: an absolute `comp` replaces `base`;
/// otherwise a `/` separates them unless `base` is empty or ends in one
/// (the rule of `PathBuf::push` on Unix).
pub open spec fn path_join(base: Seq<char>, comp: Seq<char>) -> Seq<char> {
    if comp.len() > 0 && comp[0] == '/' {
        comp
    } else if base.len() == 0 {
        comp
    } else if base.last() == '/' {
        base + comp
    } else {
        base + seq!['/'] + comp
    }
}

/// Joins two paths as [`path_join`] describes.
pub fn join_path(base: &str, comp: &str) -> (r: String)
    ensures
        r@ == path_join(base@, comp@),
{
    let b = text_chars(base);
    let c = text_chars(comp);
    if c.len() > 0 && c[0] == '/' {
        return comp.to_owned();
    }
    if b.len() == 0 {
        return comp.to_owned();
    }
    let mut r = base.to_owned();
    if b[b.len() - 1] != '/' {
        crate::text::push_char(&mut r, '/');
    }
    r.append(comp);
    r
}

impl NodeConfig {
    /// The configuration file under the home directory `home`:
    /// `<home>/.tinyvpn/config.json`.
    pub fn config_path(home: &str) -> (p: String)
        ensures
            p@ == path_join(path_join(home@, ".tinyvpn"@), "config.json"@),
    {
        let dir = join_path(home, ".tinyvpn");
        join_path(dir.as_str(), "config.json")
    }
}

} // verus!
