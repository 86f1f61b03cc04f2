//! STUN (RFC 5389) Binding Request and the XOR-MAPPED-ADDRESS attribute of
//! a Binding Response, which tells a node its public address.

use vstd::prelude::*;
use crate::net::{IpAddress, SocketAddress};

verus! {

/// Why a STUN response gave no address.
#[derive(Debug, Clone, Copy, PartialEq, Eq)]
pub enum StunError {
    /// The response is shorter than a STUN header.
    ResponseTooShort,
    /// The XOR-MAPPED-ADDRESS value is shorter than four bytes.
    AttributeTooShort,
    /// The address family is not IPv4 (`0x01`).
    UnsupportedFamily(u8),
    /// No XOR-MAPPED-ADDRESS attribute is present.
    NotFound,
}

/// The STUN header length.
pub open spec fn header_len() -> int {
    20
}

/// A big-endian 16-bit value.
pub open spec fn be16(hi: u8, lo: u8) -> int {
    hi * 256 + lo
}

/// The attribute bytes of a response: after the header, up to the length
/// the header states, cut at the end of the data.
pub open spec fn attributes(data: Seq<u8>) -> Seq<u8> {
    let end = header_len() + be16(data[2], data[3]);
    data.subrange(header_len(), if end <= data.len() { end } else { data.len() as int })
}

/// `n` rounded up to a multiple of four.
pub open spec fn pad4(n: int) -> int {
    (n + 3) / 4 * 4
}

/// Rounding up to four bytes moves forward by at most three.
pub proof fn lemma_pad4(n: int)
    requires
        n >= 0,
    ensures
        n <= pad4(n) <= n + 3,
{
    assert((n + 3) / 4 * 4 <= n + 3 && (n + 3) / 4 * 4 > n - 1) by (nonlinear_arith)
        requires n >= 0;
}

/// The address of an XOR-MAPPED-ADDRESS value: the port is XORed with the
/// top half of the magic cookie `0x2112A442`, an IPv4 address with the whole
/// cookie. `None` marks a value too short for the address it announces.
pub open spec fn decode_xor_mapped(val: Seq<u8>) -> Option<Result<SocketAddress, StunError>> {
    if val.len() < 4 {
        Some(Err(StunError::AttributeTooShort))
    } else if val[1] == 1 {
        if val.len() < 8 {
            None
        } else {
            let port = (be16(val[2], val[3]) as u16 ^ 0x2112u16) as u16;
            let ip = ((val[4] ^ 0x21u8) as u32) * 0x100_0000 + ((val[5] ^ 0x12u8) as u32) * 0x1_0000
                + ((val[6] ^ 0xA4u8) as u32) * 0x100 + ((val[7] ^ 0x42u8) as u32);
            Some(Ok(SocketAddress { ip: IpAddress::V4(ip as u32), port }))
        }
    } else {
        Some(Err(StunError::UnsupportedFamily(val[1])))
    }
}

/// Walks the attributes from `offset`: each is a 16-bit type, a 16-bit
/// length and the value, padded to four bytes. The first attribute of type
/// `0x0020` decides. `None` marks an attribute whose value runs past the
/// data.
pub open spec fn scan_attributes(attrs: Seq<u8>, offset: int) -> Option<Result<SocketAddress, StunError>>
    decreases attrs.len() - offset,
{
    if offset < 0 || offset + 4 > attrs.len() {
        Some(Err(StunError::NotFound))
    } else {
        let typ = be16(attrs[offset], attrs[offset + 1]);
        let len = be16(attrs[offset + 2], attrs[offset + 3]);
        if typ == 0x0020 {
            if offset + 4 + len > attrs.len() {
                None
            } else {
                decode_xor_mapped(attrs.subrange(offset + 4, offset + 4 + len))
            }
        } else {
            proof {
                lemma_pad4(offset + 4 + len);
            }
            if pad4(offset + 4 + len) + 4 > attrs.len() {
                Some(Err(StunError::NotFound))
            } else {
                scan_attributes(attrs, pad4(offset + 4 + len))
            }
        }
    }
}

/// The outcome of reading a response of at least a header's length;
/// `None` where an attribute runs past the data.
pub open spec fn xor_mapped_address(data: Seq<u8>) -> Option<Result<SocketAddress, StunError>> {
    scan_attributes(attributes(data), 0)
}

/// The response holds a header and no attribute value runs past its end.
pub open spec fn response_in_bounds(data: Seq<u8>) -> bool {
    data.len() >= header_len() && xor_mapped_address(data) is Some
}

fn be16_at(b: &[u8], i: usize) -> (r: usize)
    requires
        i + 1 < b@.len(),
    ensures
        r == be16(b@[i as int], b@[i as int + 1]),
{
    (b[i] as usize) * 256 + (b[i + 1] as usize)
}

fn decode_value(attrs: &[u8], start: usize, end: usize) -> (r: Result<SocketAddress, StunError>)
    requires
        start <= end <= attrs@.len(),
        decode_xor_mapped(attrs@.subrange(start as int, end as int)) is Some,
    ensures
        r == decode_xor_mapped(attrs@.subrange(start as int, end as int))->0,
{
    let ghost val = attrs@.subrange(start as int, end as int);
    if end - start < 4 {
        return Err(StunError::AttributeTooShort);
    }
    assert(val[1] == attrs@[start as int + 1]);
    let family = attrs[start + 1];
    if family == 1 {
        assert(val[2] == attrs@[start as int + 2] && val[3] == attrs@[start as int + 3]);
        assert(val[4] == attrs@[start as int + 4] && val[5] == attrs@[start as int + 5]);
        assert(val[6] == attrs@[start as int + 6] && val[7] == attrs@[start as int + 7]);
        let raw_port = be16_at(attrs, start + 2) as u16;
        let port: u16 = raw_port ^ 0x2112u16;
        let a = ((attrs[start + 4] ^ 0x21u8) as u32) * 0x100_0000 + ((attrs[start + 5] ^ 0x12u8) as u32) * 0x1_0000
            + ((attrs[start + 6] ^ 0xA4u8) as u32) * 0x100 + ((attrs[start + 7] ^ 0x42u8) as u32);
        Ok(SocketAddress { ip: IpAddress::V4(a), port })
    } else {
        Err(StunError::UnsupportedFamily(family))
    }
}

/// Whether reading the response `data` stays within its bytes.
pub fn stun_response_in_bounds(data: &[u8]) -> (r: bool)
    ensures
        r == response_in_bounds(data@),
{
    if data.len() < 20 {
        return false;
    }
    match scan(data) {
        Some(_) => true,
        None => false,
    }
}

fn scan(data: &[u8]) -> (r: Option<Result<SocketAddress, StunError>>)
    requires
        data@.len() >= header_len(),
    ensures
        r == xor_mapped_address(data@),
{
    let msg_len = be16_at(data, 2);
    let attrs_end = 20 + msg_len;
    let end = if attrs_end < data.len() { attrs_end } else { data.len() };
    let ghost attrs = attributes(data@);
    assert(attrs =~= data@.subrange(20, end as int));
    let alen = end - 20;
    let mut offset: usize = 0;
    while offset <= alen && alen - offset >= 4
        invariant
            end <= data@.len(),
            20 <= end,
            alen == end - 20,
            attrs == data@.subrange(20, end as int),
            offset <= alen + 4,
            scan_attributes(attrs, offset as int) == xor_mapped_address(data@),
        decreases alen + 4 - offset,
    {
        let base = 20 + offset;
        assert(attrs[offset as int] == data@[base as int] && attrs[offset as int + 1] == data@[base as int + 1]);
        assert(attrs[offset as int + 2] == data@[base as int + 2] && attrs[offset as int + 3] == data@[base as int + 3]);
        let attr_type = be16_at(data, base);
        let attr_len = be16_at(data, base + 2);
        if attr_len > alen - offset - 4 {
            if attr_type == 0x0020 {
                return None;
            }
            proof {
                lemma_pad4(offset + 4 + attr_len);
            }
            return Some(Err(StunError::NotFound));
        }
        if attr_type == 0x0020 {
            assert(attrs.subrange(offset as int + 4, offset as int + 4 + attr_len) =~= data@.subrange(base as int + 4, base as int + 4 + attr_len));
            if decode_fits(data, base + 4, base + 4 + attr_len) {
                return Some(decode_value(data, base + 4, base + 4 + attr_len));
            } else {
                return None;
            }
        }
        let next = offset + 4 + attr_len;
        proof {
            lemma_pad4(next as int);
        }
        offset = (next + 3) / 4 * 4;
    }
    Some(Err(StunError::NotFound))
}

fn decode_fits(attrs: &[u8], start: usize, end: usize) -> (r: bool)
    requires
        start <= end <= attrs@.len(),
    ensures
        r == (decode_xor_mapped(attrs@.subrange(start as int, end as int)) is Some),
{
    let ghost val = attrs@.subrange(start as int, end as int);
    if end - start < 4 {
        return true;
    }
    assert(val[1] == attrs@[start as int + 1]);
    attrs[start + 1] != 1 || end - start >= 8
}

/// Reads the XOR-MAPPED-ADDRESS of a Binding Response of at least a
/// header's length.
pub fn parse_xor_mapped_address(data: &[u8], txn_id: &[u8; 12]) -> (r: Result<SocketAddress, StunError>)
    requires
        response_in_bounds(data@),
    ensures
        r == xor_mapped_address(data@)->0,
{
    match scan(data) {
        Some(r) => r,
        None => Err(StunError::NotFound),
    }
}

/// Reads a Binding Response: one shorter than a header is refused.
pub fn read_binding_response(data: &[u8], txn_id: &[u8; 12]) -> (r: Result<SocketAddress, StunError>)
    requires
        data@.len() >= header_len() ==> response_in_bounds(data@),
    ensures
        data@.len() < header_len() ==> r == Err::<SocketAddress, StunError>(StunError::ResponseTooShort),
        data@.len() >= header_len() ==> r == xor_mapped_address(data@)->0,
{
    if data.len() < 20 {
        return Err(StunError::ResponseTooShort);
    }
    parse_xor_mapped_address(data, txn_id)
}

/// A Binding Request: message type `0x0001`, length 0, the magic cookie
/// `0x2112A442`, then the transaction id.
pub open spec fn binding_request(txn_id: Seq<u8>) -> Seq<u8> {
    seq![0x00u8, 0x01u8, 0x00u8, 0x00u8, 0x21u8, 0x12u8, 0xA4u8, 0x42u8] + txn_id
}

/// Builds a Binding Request with transaction id `txn_id`.
pub fn binding_request_bytes(txn_id: &[u8; 12]) -> (r: Vec<u8>)
    ensures
        r@ == binding_request(txn_id@),
{
    let mut request: Vec<u8> = Vec::new();
    request.push(0x00);
    request.push(0x01);
    request.push(0x00);
    request.push(0x00);
    request.push(0x21);
    request.push(0x12);
    request.push(0xA4);
    request.push(0x42);
    let mut i: usize = 0;
    while i < 12
        invariant
            i <= 12,
            txn_id@.len() == 12,
            request@ == seq![0x00u8, 0x01u8, 0x00u8, 0x00u8, 0x21u8, 0x12u8, 0xA4u8, 0x42u8] + txn_id@.take(i as int),
        decreases 12 - i,
    {
        request.push(txn_id[i]);
        i = i + 1;
        assert(request@ =~= seq![0x00u8, 0x01u8, 0x00u8, 0x00u8, 0x21u8, 0x12u8, 0xA4u8, 0x42u8] + txn_id@.take(i as int));
    }
    assert(txn_id@.take(12) =~= txn_id@);
    request
}


/// An attribute other than XOR-MAPPED-ADDRESS is skipped whole: its four
/// header bytes and its value, padded to a multiple of four bytes, so the
/// next attribute is read at `offset + 4 + length` rounded up to a multiple
/// of four (an 8-byte value at offset 0 is followed by the attribute at 12).
pub proof fn lemma_scan_skips_attribute(attrs: Seq<u8>, offset: int)
    requires
        0 <= offset,
        offset + 4 <= attrs.len(),
        attrs[offset] as int * 256 + attrs[offset + 1] as int != 0x0020,
        (offset + 4 + attrs[offset + 2] as int * 256 + attrs[offset + 3] as int + 3) / 4 * 4 + 4 <= attrs.len(),
    ensures
        scan_attributes(attrs, offset)
            == scan_attributes(attrs, (offset + 4 + attrs[offset + 2] as int * 256 + attrs[offset + 3] as int + 3) / 4 * 4),
{
}

/// At an XOR-MAPPED-ADDRESS whose value fits in the attributes, the scan
/// stops there and reads the address from that value.
pub proof fn lemma_scan_reads_address(attrs: Seq<u8>, offset: int)
    requires
        0 <= offset,
        offset + 4 <= attrs.len(),
        attrs[offset] == 0x00,
        attrs[offset + 1] == 0x20,
        offset + 4 + attrs[offset + 2] as int * 256 + attrs[offset + 3] as int <= attrs.len(),
    ensures
        scan_attributes(attrs, offset)
            == decode_xor_mapped(attrs.subrange(offset + 4, offset + 4 + attrs[offset + 2] as int * 256 + attrs[offset + 3] as int)),
{
}

/// An IPv4 XOR-MAPPED-ADDRESS value gives the port XORed with `0x2112` and
/// the address XORed with the magic cookie `0x2112A442`, byte by byte.
pub proof fn lemma_decode_ipv4(val: Seq<u8>)
    requires
        val.len() >= 8,
        val[1] == 1,
    ensures
        decode_xor_mapped(val) matches Some(Ok(a)) && a.port as int == (val[2] ^ 0x21u8) as int * 256 + (val[3] ^ 0x12u8) as int
            && a.ip == IpAddress::V4(((val[4] ^ 0x21u8) as int * 0x100_0000 + (val[5] ^ 0x12u8) as int * 0x1_0000
                + (val[6] ^ 0xA4u8) as int * 0x100 + (val[7] ^ 0x42u8) as int) as u32),
{
    let hi = val[2];
    let lo = val[3];
    let p: u16 = ((hi as int * 256 + lo as int) as u16 ^ 0x2112u16) as u16;
    assert(p as int == (hi ^ 0x21u8) as int * 256 + (lo ^ 0x12u8) as int) by (bit_vector)
        requires p == ((hi as u16) * 256 + (lo as u16)) as u16 ^ 0x2112u16;
}

} // verus!
