//! Network addresses as plain values, and the address rules the client
//! applies to the relay address it is given.

use vstd::prelude::*;
use crate::text::{push_char, push_decimal, decimal};

verus! {

/// An IP address: IPv4 as its 32 bits (first octet highest), IPv6 as its
/// 128 bits.
#[derive(Clone, Copy, Debug, PartialEq, Eq, Structural)]
pub enum IpAddress {
    V4(u32),
    V6(u128),
}

/// An IP address and a UDP or TCP port.
#[derive(Clone, Copy, Debug, PartialEq, Eq, Structural)]
pub struct SocketAddress {
    pub ip: IpAddress,
    pub port: u16,
}

/// The loopback addresses: `127.0.0.0/8` and `::1`.
pub open spec fn spec_is_loopback(ip: IpAddress) -> bool {
    match ip {
        IpAddress::V4(a) => a / 0x100_0000 == 127,
        IpAddress::V6(a) => a == 1,
    }
}

/// The unspecified addresses: `0.0.0.0` and `::`.
pub open spec fn spec_is_unspecified(ip: IpAddress) -> bool {
    match ip {
        IpAddress::V4(a) => a == 0,
        IpAddress::V6(a) => a == 0,
    }
}

impl IpAddress {
    /// Whether this is a loopback address.
    pub fn is_loopback(&self) -> (r: bool)
        ensures
            r == spec_is_loopback(*self),
    {
        match self {
            IpAddress::V4(a) => *a / 0x100_0000 == 127,
            IpAddress::V6(a) => *a == 1,
        }
    }

    /// Whether this is the unspecified address.
    pub fn is_unspecified(&self) -> (r: bool)
        ensures
            r == spec_is_unspecified(*self),
    {
        match self {
            IpAddress::V4(a) => *a == 0,
            IpAddress::V6(a) => *a == 0,
        }
    }
}

/// `127.0.0.1:<port>`.
pub open spec fn local_text(port: u16) -> Seq<char> {
    seq!['1', '2', '7', '.', '0', '.', '0', '.', '1', ':'] + decimal(port as nat)
}

/// The IPv4 loopback address `127.0.0.1` as its 32 bits.
pub open spec fn localhost_v4() -> u32 {
    0x7f00_0001
}

/// A loopback or unspecified relay address is reached as `127.0.0.1`.
pub open spec fn needs_local(a: SocketAddress) -> bool {
    spec_is_loopback(a.ip) || spec_is_unspecified(a.ip)
}

/// The socket address a client sends to for a relay at `relay`: a loopback
/// or unspecified relay address is reached as `127.0.0.1` on the same port;
/// any other address as given.
pub fn relay_send_address(relay: SocketAddress) -> (r: SocketAddress)
    ensures
        r == (if needs_local(relay) { SocketAddress { ip: IpAddress::V4(localhost_v4()), port: relay.port } } else { relay }),
{
    if relay.ip.is_loopback() || relay.ip.is_unspecified() {
        SocketAddress { ip: IpAddress::V4(0x7f00_0001), port: relay.port }
    } else {
        relay
    }
}

/// The relay endpoint a client gives WireGuard for the relay address text
/// `relay_addr`, which reads as the socket address `relay`:
/// `127.0.0.1:<port>` for a loopback or unspecified address, the text as
/// given otherwise.
pub fn relay_endpoint_text(relay_addr: &str, relay: SocketAddress) -> (t: String)
    ensures
        t@ == (if needs_local(relay) { local_text(relay.port) } else { relay_addr@ }),
{
    if relay.ip.is_loopback() || relay.ip.is_unspecified() {
        let mut t = String::new();
        push_char(&mut t, '1');
        push_char(&mut t, '2');
        push_char(&mut t, '7');
        push_char(&mut t, '.');
        push_char(&mut t, '0');
        push_char(&mut t, '.');
        push_char(&mut t, '0');
        push_char(&mut t, '.');
        push_char(&mut t, '1');
        push_char(&mut t, ':');
        push_decimal(&mut t, relay.port as u64);
        assert(t@ =~= local_text(relay.port));
        t
    } else {
        relay_addr.to_owned()
    }
}


/// An IPv4 address is loopback exactly when it lies in `127.0.0.0/8`
/// (first octet 127), an IPv6 address exactly when it is `::1`; the
/// unspecified addresses are `0.0.0.0` and `::`.
pub proof fn lemma_loopback_ranges(a: u32, b: u128)
    ensures
        spec_is_loopback(IpAddress::V4(a)) <==> 0x7f00_0000 <= a && a <= 0x7fff_ffff,
        spec_is_loopback(IpAddress::V6(b)) <==> b == 1,
        spec_is_unspecified(IpAddress::V4(a)) <==> a == 0,
        spec_is_unspecified(IpAddress::V6(b)) <==> b == 0,
{
}

/// The client reaches a relay at `127.0.0.1` on the relay's port exactly
/// when the relay's address is in `127.0.0.0/8`, is `0.0.0.0`, `::1` or
/// `::`; any other relay address is used as it is.
pub proof fn lemma_relay_reached_locally(relay: SocketAddress)
    ensures
        needs_local(relay) <==> match relay.ip {
            IpAddress::V4(a) => (0x7f00_0000 <= a && a <= 0x7fff_ffff) || a == 0,
            IpAddress::V6(b) => b == 0 || b == 1,
        },
{
}

} // verus!
